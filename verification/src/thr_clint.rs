//! The `thr::clint!` macro: a thread pool driven by the core-local
//! interruptor. Its input grammar, the interrupt table that the trap handler
//! reads, and the PLIC source of each external thread.
//!
//! The input is a list of sections in any order, each given once:
//!
//! ```text
//! #[attrs] thread => vis Thr { fields... };
//! #[attrs] local => vis ThrLocal { fields... };
//! #[attrs] index => vis Thrs;
//! #[attrs] init => vis ThrsInit;
//! threads => {
//!     exception => vis name;
//!     timer => vis name;
//!     external => { #[attrs] 1: vis name; ... };
//!     software => { #[attrs] vis name; ... };
//! };
//! ```
//!
//! That the sections read alike in any order is proved in `clint_order`
//! (`lemma_sections_any_order`).

use vstd::prelude::*;
use vstd::string::*;
use crate::names::{snake_case, to_snake_case};
use crate::syntax::{
    arrow, attrs, group, ident, ident_is, ident_str, ident_text, int_lit, is_ident,
    lemma_attrs_bounds, lemma_group_bounds, lemma_vis_bounds, punct, punct_is, sp_attrs, sp_fat_arrow,
    sp_group, sp_ident, sp_int, sp_punct, sp_vis, vis, vpos, vpos_within, Vis,
};
use crate::thr::{span, Block, Decl};
use crate::token::{err, mk_err, Delimiter, ErrorKind, Expected, ParseError, Section, Span, Token};

verus! {

// ---------------------------------------------------------------------------
// The parsed input
// ---------------------------------------------------------------------------

/// One thread: its attributes, visibility and the position of its name.
#[derive(PartialEq, Eq, Structural, Clone, Copy, Debug)]
pub struct ThreadSpec {
    pub attrs: Span,
    pub vis: Vis,
    pub ident: usize,
}

/// A thread and the interrupt it serves.
#[derive(PartialEq, Eq, Structural, Clone, Copy, Debug)]
pub enum Thread {
    /// Synchronous exceptions.
    Exception(ThreadSpec),
    /// The machine timer interrupt.
    Timer(ThreadSpec),
    /// The external interrupt with this PLIC source number.
    External(u32, ThreadSpec),
    /// No interrupt: woken by software.
    Software(ThreadSpec),
}

/// The specification of a thread, whatever interrupt it serves.
pub open spec fn thread_spec(th: Thread) -> ThreadSpec {
    match th {
        Thread::Exception(s) => s,
        Thread::Timer(s) => s,
        Thread::External(_, s) => s,
        Thread::Software(s) => s,
    }
}

/// The parsed input of `thr::clint!`.
pub struct Input {
    pub thr: Block,
    pub local: Block,
    pub index: Decl,
    pub init: Decl,
    pub threads: Vec<Thread>,
}

/// The parsed input as a spec value.
pub struct InputView {
    pub thr: Block,
    pub local: Block,
    pub index: Decl,
    pub init: Decl,
    pub threads: Seq<Thread>,
}

impl View for Input {
    type V = InputView;

    open spec fn view(&self) -> InputView {
        InputView {
            thr: self.thr,
            local: self.local,
            index: self.index,
            init: self.init,
            threads: self.threads@,
        }
    }
}

/// The sections read so far.
pub struct Sections {
    pub thr: Option<Block>,
    pub local: Option<Block>,
    pub index: Option<Decl>,
    pub init: Option<Decl>,
    pub threads: Option<Vec<Thread>>,
}

/// The sections read so far as a spec value.
pub struct SectionsView {
    pub thr: Option<Block>,
    pub local: Option<Block>,
    pub index: Option<Decl>,
    pub init: Option<Decl>,
    pub threads: Option<Seq<Thread>>,
}

impl View for Sections {
    type V = SectionsView;

    open spec fn view(&self) -> SectionsView {
        SectionsView {
            thr: self.thr,
            local: self.local,
            index: self.index,
            init: self.init,
            threads: match self.threads {
                Some(v) => Some(v@),
                None => None,
            },
        }
    }
}

// ---------------------------------------------------------------------------
// Grammar
// ---------------------------------------------------------------------------

/// Reads `vis Name { ... }` of a `thread` or `local` section.
pub open spec fn sp_block(t: Seq<Token>, p: int, e: int, attrs: Span) -> Result<(Block, int), ParseError> {
    match sp_vis(t, p, e) {
        Err(x) => Err(x),
        Ok((v, q1)) => match sp_ident(t, q1, e) {
            Err(x) => Err(x),
            Ok(i) => match sp_group(t, i + 1, e, Delimiter::Brace, Expected::Braces) {
                Err(x) => Err(x),
                Ok(c) => Ok(
                    (Block { attrs, vis: v, ident: i as usize, tokens: span(i + 2, c) }, c + 1),
                ),
            },
        },
    }
}

/// Reads `vis Name` of an `index` or `init` section.
pub open spec fn sp_decl(t: Seq<Token>, p: int, e: int, attrs: Span) -> Result<(Decl, int), ParseError> {
    match sp_vis(t, p, e) {
        Err(x) => Err(x),
        Ok((v, q1)) => match sp_ident(t, q1, e) {
            Err(x) => Err(x),
            Ok(i) => Ok((Decl { attrs, vis: v, ident: i as usize }, i + 1)),
        },
    }
}

/// Reads `#[attrs] number: vis name` items separated by `;`, appending them.
pub open spec fn sp_external_items(t: Seq<Token>, p: int, e: int, acc: Seq<Thread>) -> Result<
    Seq<Thread>,
    ParseError,
>
    decreases e - p,
{
    if p >= e {
        Ok(acc)
    } else {
        match sp_attrs(t, p, e) {
            Err(x) => Err(x),
            Ok(a) => match sp_int(t, a, e) {
                Err(x) => Err(x),
                Ok(num) => match sp_punct(t, a + 1, e, ':', Expected::Colon) {
                    Err(x) => Err(x),
                    Ok(q1) => match sp_vis(t, q1, e) {
                        Err(x) => Err(x),
                        Ok((v, q2)) => match sp_ident(t, q2, e) {
                            Err(x) => Err(x),
                            Ok(i) => {
                                proof {
                                    lemma_attrs_bounds(t, p, e);
                                    lemma_vis_bounds(t, q1, e);
                                }
                                let acc2 = acc.push(
                                    Thread::External(
                                        num,
                                        ThreadSpec { attrs: span(p, a), vis: v, ident: i as usize },
                                    ),
                                );
                                if i + 1 < e {
                                    match sp_punct(t, i + 1, e, ';', Expected::Semi) {
                                        Err(x) => Err(x),
                                        Ok(q3) => sp_external_items(t, q3, e, acc2),
                                    }
                                } else {
                                    sp_external_items(t, i + 1, e, acc2)
                                }
                            },
                        },
                    },
                },
            },
        }
    }
}

/// Reads `#[attrs] vis name` items separated by `;`, appending them.
pub open spec fn sp_software_items(t: Seq<Token>, p: int, e: int, acc: Seq<Thread>) -> Result<
    Seq<Thread>,
    ParseError,
>
    decreases e - p,
{
    if p >= e {
        Ok(acc)
    } else {
        match sp_attrs(t, p, e) {
            Err(x) => Err(x),
            Ok(a) => match sp_vis(t, a, e) {
                Err(x) => Err(x),
                Ok((v, q2)) => match sp_ident(t, q2, e) {
                    Err(x) => Err(x),
                    Ok(i) => {
                        proof {
                            lemma_attrs_bounds(t, p, e);
                            lemma_vis_bounds(t, a, e);
                        }
                        let acc2 = acc.push(
                            Thread::Software(ThreadSpec { attrs: span(p, a), vis: v, ident: i as usize }),
                        );
                        if i + 1 < e {
                            match sp_punct(t, i + 1, e, ';', Expected::Semi) {
                                Err(x) => Err(x),
                                Ok(q3) => sp_software_items(t, q3, e, acc2),
                            }
                        } else {
                            sp_software_items(t, i + 1, e, acc2)
                        }
                    },
                },
            },
        }
    }
}

/// The threads read so far and whether an exception or timer thread was
/// among them.
pub type ThreadsAcc = (Seq<Thread>, bool, bool);

/// Reads what follows `name =>` inside the `threads` braces: `p` is where
/// the entry's attributes start, `a` the position of `name`, `q` the
/// position after `=>`.
pub open spec fn sp_entry_body(
    t: Seq<Token>,
    p: int,
    a: int,
    q: int,
    e: int,
    acc: ThreadsAcc,
) -> Result<(ThreadsAcc, int), ParseError> {
    let (ths, exc, tim) = acc;
    if a == p && ident_is(t, a, e, "external"@) {
        match sp_group(t, q, e, Delimiter::Brace, Expected::Braces) {
            Err(x) => Err(x),
            Ok(c) => match sp_external_items(t, q + 1, c, ths) {
                Err(x) => Err(x),
                Ok(ths2) => Ok(((ths2, exc, tim), c + 1)),
            },
        }
    } else if a == p && ident_is(t, a, e, "software"@) {
        match sp_group(t, q, e, Delimiter::Brace, Expected::Braces) {
            Err(x) => Err(x),
            Ok(c) => match sp_software_items(t, q + 1, c, ths) {
                Err(x) => Err(x),
                Ok(ths2) => Ok(((ths2, exc, tim), c + 1)),
            },
        }
    } else if ident_is(t, a, e, "exception"@) || ident_is(t, a, e, "timer"@) {
        let is_exc = ident_is(t, a, e, "exception"@);
        match sp_vis(t, q, e) {
            Err(x) => Err(x),
            Ok((v, q2)) => match sp_ident(t, q2, e) {
                Err(x) => Err(x),
                Ok(i) => {
                    let s = ThreadSpec { attrs: span(p, a), vis: v, ident: i as usize };
                    if is_exc {
                        if exc {
                            Err(err(ErrorKind::MultipleException, i + 1))
                        } else {
                            Ok(((ths.push(Thread::Exception(s)), true, tim), i + 1))
                        }
                    } else {
                        if tim {
                            Err(err(ErrorKind::MultipleTimer, i + 1))
                        } else {
                            Ok(((ths.push(Thread::Timer(s)), exc, true), i + 1))
                        }
                    }
                },
            },
        }
    } else {
        Err(err(ErrorKind::UnexpectedIdent(a as usize), q))
    }
}

/// An entry body ends after it starts, and not after the end.
pub proof fn lemma_entry_body_bounds(t: Seq<Token>, p: int, a: int, q: int, e: int, acc: ThreadsAcc)
    requires
        q <= e,
    ensures
        sp_entry_body(t, p, a, q, e, acc) matches Ok((_, q2)) ==> q < q2 <= e,
{
    lemma_group_bounds(t, q, e, Delimiter::Brace, Expected::Braces);
    lemma_vis_bounds(t, q, e);
}

/// Reads the entries inside the `threads` braces, separated by `;`.
pub open spec fn sp_entries(t: Seq<Token>, p: int, e: int, acc: ThreadsAcc) -> Result<
    Seq<Thread>,
    ParseError,
>
    decreases e - p,
{
    if p >= e {
        Ok(acc.0)
    } else {
        match sp_attrs(t, p, e) {
            Err(x) => Err(x),
            Ok(a) => match sp_ident(t, a, e) {
                Err(x) => Err(x),
                Ok(_) => match sp_fat_arrow(t, a + 1, e) {
                    Err(x) => Err(x),
                    Ok(q1) => match sp_entry_body(t, p, a, q1, e, acc) {
                        Err(x) => Err(x),
                        Ok((acc2, q2)) => {
                            proof {
                                lemma_attrs_bounds(t, p, e);
                                lemma_entry_body_bounds(t, p, a, q1, e, acc);
                            }
                            if q2 < e {
                                match sp_punct(t, q2, e, ';', Expected::Semi) {
                                    Err(x) => Err(x),
                                    Ok(q3) => sp_entries(t, q3, e, acc2),
                                }
                            } else {
                                sp_entries(t, q2, e, acc2)
                            }
                        },
                    },
                },
            },
        }
    }
}

/// Reads `{ ... }` of the `threads` section.
pub open spec fn sp_threads(t: Seq<Token>, p: int, e: int) -> Result<(Seq<Thread>, int), ParseError> {
    match sp_group(t, p, e, Delimiter::Brace, Expected::Braces) {
        Err(x) => Err(x),
        Ok(c) => match sp_entries(t, p + 1, c, (Seq::empty(), false, false)) {
            Err(x) => Err(x),
            Ok(ths) => Ok((ths, c + 1)),
        },
    }
}

/// Reads what follows `word =>` of a top-level section: `p` is where its
/// attributes start, `a` the position of `word`, `q` the position after
/// `=>`. A section given twice is refused; a word that names no section is
/// passed over.
pub open spec fn sp_item_body(
    t: Seq<Token>,
    p: int,
    a: int,
    q: int,
    e: int,
    st: SectionsView,
) -> Result<(SectionsView, int), ParseError> {
    let attrs = span(p, a);
    if ident_is(t, a, e, "thread"@) {
        if st.thr is Some {
            Err(err(ErrorKind::Multiple(Section::Thread), q))
        } else {
            match sp_block(t, q, e, attrs) {
                Err(x) => Err(x),
                Ok((b, q2)) => Ok((SectionsView { thr: Some(b), ..st }, q2)),
            }
        }
    } else if ident_is(t, a, e, "local"@) {
        if st.local is Some {
            Err(err(ErrorKind::Multiple(Section::Local), q))
        } else {
            match sp_block(t, q, e, attrs) {
                Err(x) => Err(x),
                Ok((b, q2)) => Ok((SectionsView { local: Some(b), ..st }, q2)),
            }
        }
    } else if ident_is(t, a, e, "index"@) {
        if st.index is Some {
            Err(err(ErrorKind::Multiple(Section::Index), q))
        } else {
            match sp_decl(t, q, e, attrs) {
                Err(x) => Err(x),
                Ok((d, q2)) => Ok((SectionsView { index: Some(d), ..st }, q2)),
            }
        }
    } else if ident_is(t, a, e, "init"@) {
        if st.init is Some {
            Err(err(ErrorKind::Multiple(Section::Init), q))
        } else {
            match sp_decl(t, q, e, attrs) {
                Err(x) => Err(x),
                Ok((d, q2)) => Ok((SectionsView { init: Some(d), ..st }, q2)),
            }
        }
    } else if a == p && ident_is(t, a, e, "threads"@) {
        if st.threads is Some {
            Err(err(ErrorKind::Multiple(Section::Threads), q))
        } else {
            match sp_threads(t, q, e) {
                Err(x) => Err(x),
                Ok((ths, q2)) => Ok((SectionsView { threads: Some(ths), ..st }, q2)),
            }
        }
    } else {
        Ok((st, q))
    }
}

/// A section body ends at or after where it starts, and not after the end.
pub proof fn lemma_item_body_bounds(t: Seq<Token>, p: int, a: int, q: int, e: int, st: SectionsView)
    requires
        q <= e,
    ensures
        sp_item_body(t, p, a, q, e, st) matches Ok((_, q2)) ==> q <= q2 <= e,
{
    lemma_vis_bounds(t, q, e);
    if let Ok((_, q1)) = sp_vis(t, q, e) {
        lemma_group_bounds(t, q1 + 1, e, Delimiter::Brace, Expected::Braces);
    }
    lemma_group_bounds(t, q, e, Delimiter::Brace, Expected::Braces);
}

/// Reads the top-level sections from `p`, separated by `;`.
pub open spec fn sp_items(t: Seq<Token>, p: int, e: int, st: SectionsView) -> Result<
    SectionsView,
    ParseError,
>
    decreases e - p,
{
    if p >= e {
        Ok(st)
    } else {
        match sp_attrs(t, p, e) {
            Err(x) => Err(x),
            Ok(a) => match sp_ident(t, a, e) {
                Err(x) => Err(x),
                Ok(_) => match sp_fat_arrow(t, a + 1, e) {
                    Err(x) => Err(x),
                    Ok(q1) => match sp_item_body(t, p, a, q1, e, st) {
                        Err(x) => Err(x),
                        Ok((st2, q2)) => {
                            proof {
                                lemma_attrs_bounds(t, p, e);
                                lemma_item_body_bounds(t, p, a, q1, e, st);
                            }
                            if q2 < e {
                                match sp_punct(t, q2, e, ';', Expected::Semi) {
                                    Err(x) => Err(x),
                                    Ok(q3) => sp_items(t, q3, e, st2),
                                }
                            } else {
                                sp_items(t, q2, e, st2)
                            }
                        },
                    },
                },
            },
        }
    }
}

/// The smaller of two optional positions.
pub open spec fn min_of(a: Option<usize>, b: Option<usize>) -> Option<usize> {
    match (a, b) {
        (Some(x), Some(y)) => Some(if x <= y {
            x
        } else {
            y
        }),
        (Some(x), None) => Some(x),
        (None, _) => b,
    }
}

/// The smallest position left unread inside the visibilities of the threads
/// from `i` on.
pub open spec fn threads_leftover(ths: Seq<Thread>, i: int) -> Option<usize>
    decreases ths.len() - i,
{
    if i < 0 || i >= ths.len() {
        None
    } else {
        min_of(thread_spec(ths[i]).vis.leftover, threads_leftover(ths, i + 1))
    }
}

/// The first position left unread inside a group: sections are read in the
/// order they are written, so it is the smallest.
pub open spec fn input_leftover(inp: InputView) -> Option<usize> {
    min_of(
        inp.thr.vis.leftover,
        min_of(
            inp.local.vis.leftover,
            min_of(
                inp.index.vis.leftover,
                min_of(inp.init.vis.leftover, threads_leftover(inp.threads, 0)),
            ),
        ),
    )
}

/// No section read yet.
pub open spec fn no_sections() -> SectionsView {
    SectionsView { thr: None, local: None, index: None, init: None, threads: None }
}

/// The parse of a whole `thr::clint!` input: the sections; then each must
/// have been given; then no token may be left unread inside a group.
pub open spec fn sp_parse(t: Seq<Token>) -> Result<InputView, ParseError> {
    let n = t.len() as int;
    match sp_items(t, 0, n, no_sections()) {
        Err(x) => Err(x),
        Ok(st) => if st.thr is None {
            Err(err(ErrorKind::Missing(Section::Thread), n))
        } else if st.local is None {
            Err(err(ErrorKind::Missing(Section::Local), n))
        } else if st.index is None {
            Err(err(ErrorKind::Missing(Section::Index), n))
        } else if st.init is None {
            Err(err(ErrorKind::Missing(Section::Init), n))
        } else if st.threads is None {
            Err(err(ErrorKind::Missing(Section::Threads), n))
        } else {
            let inp = InputView {
                thr: st.thr.unwrap(),
                local: st.local.unwrap(),
                index: st.index.unwrap(),
                init: st.init.unwrap(),
                threads: st.threads.unwrap(),
            };
            match input_leftover(inp) {
                Some(u) => Err(err(ErrorKind::UnexpectedToken, u as int)),
                None => Ok(inp),
            }
        },
    }
}

} // verus!

verus! {

// ---------------------------------------------------------------------------
// Readers
// ---------------------------------------------------------------------------

fn mk_span(a: usize, b: usize) -> (r: Span)
    ensures
        r == span(a as int, b as int),
{
    Span { start: a, end: b }
}

fn block(t: &Vec<Token>, p: usize, e: usize, attrs: Span) -> (r: Result<(Block, usize), ParseError>)
    requires
        p <= e <= t@.len(),
    ensures
        vpos(r) == sp_block(t@, p as int, e as int, attrs),
        vpos_within(r, p as int, e as int),
{
    let (v, q1) = vis(t, p, e)?;
    let i = ident(t, q1, e)?;
    let c = group(t, i + 1, e, Delimiter::Brace, Expected::Braces)?;
    Ok((Block { attrs, vis: v, ident: i, tokens: mk_span(i + 2, c) }, c + 1))
}

fn decl(t: &Vec<Token>, p: usize, e: usize, attrs: Span) -> (r: Result<(Decl, usize), ParseError>)
    requires
        p <= e <= t@.len(),
    ensures
        vpos(r) == sp_decl(t@, p as int, e as int, attrs),
        vpos_within(r, p as int, e as int),
{
    let (v, q1) = vis(t, p, e)?;
    let i = ident(t, q1, e)?;
    Ok((Decl { attrs, vis: v, ident: i }, i + 1))
}

/// The result of a reader that appends to a list of threads.
pub open spec fn appended(
    r: Result<(), ParseError>,
    spec: Result<Seq<Thread>, ParseError>,
    now: Seq<Thread>,
) -> bool {
    match r {
        Ok(_) => spec == Ok::<Seq<Thread>, ParseError>(now),
        Err(x) => spec == Err::<Seq<Thread>, ParseError>(x),
    }
}

fn external_items(t: &Vec<Token>, p: usize, e: usize, threads: &mut Vec<Thread>) -> (r: Result<
    (),
    ParseError,
>)
    requires
        p <= e <= t@.len(),
    ensures
        appended(r, sp_external_items(t@, p as int, e as int, old(threads)@), final(threads)@),
{
    let ghost acc0 = threads@;
    let mut q = p;
    while q < e
        invariant
            p <= q <= e <= t@.len(),
            acc0 == old(threads)@,
            sp_external_items(t@, p as int, e as int, acc0) == sp_external_items(
                t@,
                q as int,
                e as int,
                threads@,
            ),
        decreases e - q,
    {
        let a = attrs(t, q, e)?;
        let num = int_lit(t, a, e)?;
        let q1 = punct(t, a + 1, e, ':', Expected::Colon)?;
        let (v, q2) = vis(t, q1, e)?;
        let i = ident(t, q2, e)?;
        threads.push(Thread::External(num, ThreadSpec { attrs: mk_span(q, a), vis: v, ident: i }));
        if i + 1 < e {
            q = punct(t, i + 1, e, ';', Expected::Semi)?;
        } else {
            q = i + 1;
        }
    }
    Ok(())
}

fn software_items(t: &Vec<Token>, p: usize, e: usize, threads: &mut Vec<Thread>) -> (r: Result<
    (),
    ParseError,
>)
    requires
        p <= e <= t@.len(),
    ensures
        appended(r, sp_software_items(t@, p as int, e as int, old(threads)@), final(threads)@),
{
    let ghost acc0 = threads@;
    let mut q = p;
    while q < e
        invariant
            p <= q <= e <= t@.len(),
            acc0 == old(threads)@,
            sp_software_items(t@, p as int, e as int, acc0) == sp_software_items(
                t@,
                q as int,
                e as int,
                threads@,
            ),
        decreases e - q,
    {
        let a = attrs(t, q, e)?;
        let (v, q2) = vis(t, a, e)?;
        let i = ident(t, q2, e)?;
        threads.push(Thread::Software(ThreadSpec { attrs: mk_span(q, a), vis: v, ident: i }));
        if i + 1 < e {
            q = punct(t, i + 1, e, ';', Expected::Semi)?;
        } else {
            q = i + 1;
        }
    }
    Ok(())
}

fn entry_body(
    t: &Vec<Token>,
    p: usize,
    a: usize,
    q: usize,
    e: usize,
    threads: &mut Vec<Thread>,
    exc: &mut bool,
    tim: &mut bool,
) -> (r: Result<usize, ParseError>)
    requires
        p <= a < q <= e <= t@.len(),
    ensures
        match r {
            Ok(q2) => sp_entry_body(
                t@,
                p as int,
                a as int,
                q as int,
                e as int,
                (old(threads)@, *old(exc), *old(tim)),
            ) == Ok::<(ThreadsAcc, int), ParseError>(
                ((final(threads)@, *final(exc), *final(tim)), q2 as int),
            ) && q < q2 <= e,
            Err(x) => sp_entry_body(
                t@,
                p as int,
                a as int,
                q as int,
                e as int,
                (old(threads)@, *old(exc), *old(tim)),
            ) == Err::<(ThreadsAcc, int), ParseError>(x),
        },
{
    if a == p && is_ident(t, a, e, "external") {
        let c = group(t, q, e, Delimiter::Brace, Expected::Braces)?;
        external_items(t, q + 1, c, threads)?;
        Ok(c + 1)
    } else if a == p && is_ident(t, a, e, "software") {
        let c = group(t, q, e, Delimiter::Brace, Expected::Braces)?;
        software_items(t, q + 1, c, threads)?;
        Ok(c + 1)
    } else if is_ident(t, a, e, "exception") || is_ident(t, a, e, "timer") {
        let is_exc = is_ident(t, a, e, "exception");
        let (v, q2) = vis(t, q, e)?;
        let i = ident(t, q2, e)?;
        let s = ThreadSpec { attrs: mk_span(p, a), vis: v, ident: i };
        if is_exc {
            if *exc {
                return Err(mk_err(ErrorKind::MultipleException, i + 1));
            }
            threads.push(Thread::Exception(s));
            *exc = true;
        } else {
            if *tim {
                return Err(mk_err(ErrorKind::MultipleTimer, i + 1));
            }
            threads.push(Thread::Timer(s));
            *tim = true;
        }
        Ok(i + 1)
    } else {
        Err(mk_err(ErrorKind::UnexpectedIdent(a), q))
    }
}

fn entries(t: &Vec<Token>, p: usize, e: usize, threads: &mut Vec<Thread>) -> (r: Result<
    (),
    ParseError,
>)
    requires
        p <= e <= t@.len(),
    ensures
        appended(r, sp_entries(t@, p as int, e as int, (old(threads)@, false, false)), final(threads)@),
{
    let ghost acc0 = threads@;
    let mut exc = false;
    let mut tim = false;
    let mut q = p;
    while q < e
        invariant
            p <= q <= e <= t@.len(),
            acc0 == old(threads)@,
            sp_entries(t@, p as int, e as int, (acc0, false, false)) == sp_entries(
                t@,
                q as int,
                e as int,
                (threads@, exc, tim),
            ),
        decreases e - q,
    {
        let a = attrs(t, q, e)?;
        let _ = ident(t, a, e)?;
        let q1 = arrow(t, a + 1, e)?;
        let q2 = entry_body(t, q, a, q1, e, threads, &mut exc, &mut tim)?;
        if q2 < e {
            q = punct(t, q2, e, ';', Expected::Semi)?;
        } else {
            q = q2;
        }
    }
    Ok(())
}

fn threads_section(t: &Vec<Token>, p: usize, e: usize) -> (r: Result<(Vec<Thread>, usize), ParseError>)
    requires
        p <= e <= t@.len(),
    ensures
        match r {
            Ok((ths, q)) => sp_threads(t@, p as int, e as int) == Ok::<(Seq<Thread>, int), ParseError>(
                (ths@, q as int),
            ) && p <= q <= e,
            Err(x) => sp_threads(t@, p as int, e as int) == Err::<(Seq<Thread>, int), ParseError>(x),
        },
{
    let c = group(t, p, e, Delimiter::Brace, Expected::Braces)?;
    let mut ths: Vec<Thread> = Vec::new();
    entries(t, p + 1, c, &mut ths)?;
    Ok((ths, c + 1))
}

fn item_body(t: &Vec<Token>, p: usize, a: usize, q: usize, e: usize, st: &mut Sections) -> (r: Result<
    usize,
    ParseError,
>)
    requires
        p <= a < q <= e <= t@.len(),
    ensures
        match r {
            Ok(q2) => sp_item_body(t@, p as int, a as int, q as int, e as int, old(st)@) == Ok::<
                (SectionsView, int),
                ParseError,
            >((final(st)@, q2 as int)) && q <= q2 <= e,
            Err(x) => sp_item_body(t@, p as int, a as int, q as int, e as int, old(st)@) == Err::<
                (SectionsView, int),
                ParseError,
            >(x),
        },
{
    let attrs = mk_span(p, a);
    if is_ident(t, a, e, "thread") {
        if st.thr.is_some() {
            return Err(mk_err(ErrorKind::Multiple(Section::Thread), q));
        }
        let (b, q2) = block(t, q, e, attrs)?;
        st.thr = Some(b);
        Ok(q2)
    } else if is_ident(t, a, e, "local") {
        if st.local.is_some() {
            return Err(mk_err(ErrorKind::Multiple(Section::Local), q));
        }
        let (b, q2) = block(t, q, e, attrs)?;
        st.local = Some(b);
        Ok(q2)
    } else if is_ident(t, a, e, "index") {
        if st.index.is_some() {
            return Err(mk_err(ErrorKind::Multiple(Section::Index), q));
        }
        let (d, q2) = decl(t, q, e, attrs)?;
        st.index = Some(d);
        Ok(q2)
    } else if is_ident(t, a, e, "init") {
        if st.init.is_some() {
            return Err(mk_err(ErrorKind::Multiple(Section::Init), q));
        }
        let (d, q2) = decl(t, q, e, attrs)?;
        st.init = Some(d);
        Ok(q2)
    } else if a == p && is_ident(t, a, e, "threads") {
        if st.threads.is_some() {
            return Err(mk_err(ErrorKind::Multiple(Section::Threads), q));
        }
        let (ths, q2) = threads_section(t, q, e)?;
        st.threads = Some(ths);
        Ok(q2)
    } else {
        Ok(q)
    }
}

fn items(t: &Vec<Token>, st: &mut Sections) -> (r: Result<(), ParseError>)
    ensures
        match r {
            Ok(_) => sp_items(t@, 0, t@.len() as int, old(st)@) == Ok::<SectionsView, ParseError>(
                final(st)@,
            ),
            Err(x) => sp_items(t@, 0, t@.len() as int, old(st)@) == Err::<SectionsView, ParseError>(x),
        },
{
    let ghost st0 = st@;
    let e = t.len();
    let mut q: usize = 0;
    while q < e
        invariant
            q <= e == t@.len(),
            st0 == old(st)@,
            sp_items(t@, 0, e as int, st0) == sp_items(t@, q as int, e as int, st@),
        decreases e - q,
    {
        let a = attrs(t, q, e)?;
        let _ = ident(t, a, e)?;
        let q1 = arrow(t, a + 1, e)?;
        let q2 = item_body(t, q, a, q1, e, st)?;
        if q2 < e {
            q = punct(t, q2, e, ';', Expected::Semi)?;
        } else {
            q = q2;
        }
    }
    Ok(())
}

fn min_pos(a: Option<usize>, b: Option<usize>) -> (r: Option<usize>)
    ensures
        r == min_of(a, b),
{
    match (a, b) {
        (Some(x), Some(y)) => Some(
            if x <= y {
                x
            } else {
                y
            },
        ),
        (Some(x), None) => Some(x),
        (None, _) => b,
    }
}

/// The first position left unread inside a group.
pub fn leftover(inp: &Input) -> (r: Option<usize>)
    ensures
        r == input_leftover(inp@),
{
    let n = inp.threads.len();
    let mut found: Option<usize> = None;
    let mut i = n;
    while i > 0
        invariant
            i <= n == inp.threads@.len(),
            found == threads_leftover(inp.threads@, i as int),
        decreases i,
    {
        i = i - 1;
        let s = match &inp.threads[i] {
            Thread::Exception(s) => *s,
            Thread::Timer(s) => *s,
            Thread::External(_, s) => *s,
            Thread::Software(s) => *s,
        };
        found = min_pos(s.vis.leftover, found);
    }
    min_pos(
        inp.thr.vis.leftover,
        min_pos(
            inp.local.vis.leftover,
            min_pos(inp.index.vis.leftover, min_pos(inp.init.vis.leftover, found)),
        ),
    )
}

/// Parses a whole `thr::clint!` input.
pub fn parse(t: &Vec<Token>) -> (r: Result<Input, ParseError>)
    ensures
        match r {
            Ok(inp) => sp_parse(t@) == Ok::<InputView, ParseError>(inp@),
            Err(x) => sp_parse(t@) == Err::<InputView, ParseError>(x),
        },
{
    let mut st = Sections { thr: None, local: None, index: None, init: None, threads: None };
    items(t, &mut st)?;
    let n = t.len();
    let thr = match st.thr {
        Some(b) => b,
        None => return Err(mk_err(ErrorKind::Missing(Section::Thread), n)),
    };
    let local = match st.local {
        Some(b) => b,
        None => return Err(mk_err(ErrorKind::Missing(Section::Local), n)),
    };
    let index = match st.index {
        Some(d) => d,
        None => return Err(mk_err(ErrorKind::Missing(Section::Index), n)),
    };
    let init = match st.init {
        Some(d) => d,
        None => return Err(mk_err(ErrorKind::Missing(Section::Init), n)),
    };
    let threads = match st.threads {
        Some(v) => v,
        None => return Err(mk_err(ErrorKind::Missing(Section::Threads), n)),
    };
    let inp = Input { thr, local, index, init, threads };
    match leftover(&inp) {
        Some(u) => Err(mk_err(ErrorKind::UnexpectedToken, u)),
        None => Ok(inp),
    }
}

} // verus!

verus! {

// ---------------------------------------------------------------------------
// The interrupt table
// ---------------------------------------------------------------------------

/// The interrupt table as a spec value.
pub struct InitView {
    pub exception: usize,
    pub timer: usize,
    pub external: Seq<usize>,
}

/// The handler numbers that the trap handler reads: one more than the index
/// of the exception thread, of the timer thread, and of the thread of each
/// PLIC source (by source number minus one); 0 where there is none.
pub struct InitTable {
    pub exception: usize,
    pub timer: usize,
    pub external: Vec<usize>,
}

impl View for InitTable {
    type V = InitView;

    open spec fn view(&self) -> InitView {
        InitView { exception: self.exception, timer: self.timer, external: self.external@ }
    }
}

/// `ext` grown with zeros to at least `len` entries.
pub open spec fn grown(ext: Seq<usize>, len: int) -> Seq<usize> {
    if ext.len() < len {
        ext + Seq::new((len - ext.len()) as nat, |_k: int| 0usize)
    } else {
        ext
    }
}

/// The table after thread `th` at index `idx`.
pub open spec fn init_step(st: InitView, th: Thread, idx: int) -> InitView {
    match th {
        Thread::Exception(_) => InitView { exception: (idx + 1) as usize, ..st },
        Thread::Timer(_) => InitView { timer: (idx + 1) as usize, ..st },
        Thread::External(src, _) => InitView {
            external: grown(st.external, src as int).update(src - 1, (idx + 1) as usize),
            ..st
        },
        Thread::Software(_) => st,
    }
}

/// The table made from the first `i` threads.
pub open spec fn init_upto(ths: Seq<Thread>, i: int) -> InitView
    decreases i,
{
    if i <= 0 {
        InitView { exception: 0, timer: 0, external: Seq::empty() }
    } else {
        init_step(init_upto(ths, i - 1), ths[i - 1], i - 1)
    }
}

/// Every external thread names a source above 0.
pub open spec fn sources_positive(ths: Seq<Thread>) -> bool {
    forall|i: int| 0 <= i < ths.len() ==> (#[trigger] ths[i] matches Thread::External(src, _) ==> src > 0)
}

/// Whether every external thread names a source above 0.
pub fn check_sources(threads: &Vec<Thread>) -> (r: bool)
    ensures
        r == sources_positive(threads@),
{
    let mut i: usize = 0;
    while i < threads.len()
        invariant
            i <= threads@.len(),
            forall|k: int|
                0 <= k < i ==> (#[trigger] threads@[k] matches Thread::External(src, _) ==> src > 0),
        decreases threads@.len() - i,
    {
        if let Thread::External(src, _) = &threads[i] {
            if *src == 0 {
                return false;
            }
        }
        i = i + 1;
    }
    true
}

/// The interrupt table of the threads.
pub fn init_table(threads: &Vec<Thread>) -> (r: InitTable)
    requires
        sources_positive(threads@),
    ensures
        r@ == init_upto(threads@, threads@.len() as int),
{
    let mut exception: usize = 0;
    let mut timer: usize = 0;
    let mut external: Vec<usize> = Vec::new();
    let mut i: usize = 0;
    while i < threads.len()
        invariant
            i <= threads@.len(),
            sources_positive(threads@),
            (InitView { exception, timer, external: external@ }) == init_upto(threads@, i as int),
        decreases threads@.len() - i,
    {
        match &threads[i] {
            Thread::Exception(_) => {
                exception = i + 1;
            },
            Thread::Timer(_) => {
                timer = i + 1;
            },
            Thread::External(src, _) => {
                let src = *src as usize;
                assert(threads@[i as int] matches Thread::External(s, _) ==> s > 0);
                let ghost before = external@;
                while external.len() < src
                    invariant
                        before.len() <= external@.len(),
                        external@.len() <= src || external@.len() == before.len(),
                        external@ == before + Seq::new(
                            (external@.len() - before.len()) as nat,
                            |_k: int| 0usize,
                        ),
                    decreases src - external@.len(),
                {
                    external.push(0);
                }
                assert(external@ =~= grown(before, src as int));
                external.set(src - 1, i + 1);
            },
            Thread::Software(_) => {},
        }
        i = i + 1;
    }
    InitTable { exception, timer, external }
}

/// The last of the first `n` threads that serves external source `src`.
pub open spec fn last_external(ths: Seq<Thread>, n: int, src: int) -> Option<int>
    decreases n,
{
    if n <= 0 {
        None
    } else if ths[n - 1] matches Thread::External(s, _) && s == src {
        Some(n - 1)
    } else {
        last_external(ths, n - 1, src)
    }
}

/// The last of the first `n` threads that serves exceptions.
pub open spec fn last_exception(ths: Seq<Thread>, n: int) -> Option<int>
    decreases n,
{
    if n <= 0 {
        None
    } else if ths[n - 1] is Exception {
        Some(n - 1)
    } else {
        last_exception(ths, n - 1)
    }
}

/// The last of the first `n` threads that serves the timer.
pub open spec fn last_timer(ths: Seq<Thread>, n: int) -> Option<int>
    decreases n,
{
    if n <= 0 {
        None
    } else if ths[n - 1] is Timer {
        Some(n - 1)
    } else {
        last_timer(ths, n - 1)
    }
}

/// The largest source among the first `n` threads, 0 when none is external.
pub open spec fn max_source(ths: Seq<Thread>, n: int) -> nat
    decreases n,
{
    if n <= 0 {
        0
    } else {
        let m = max_source(ths, n - 1);
        match ths[n - 1] {
            Thread::External(s, _) => if s > m {
                s as nat
            } else {
                m
            },
            _ => m,
        }
    }
}

/// One more than the index `i`, or 0 for none.
pub open spec fn number_of(i: Option<int>) -> usize {
    match i {
        Some(k) => (k + 1) as usize,
        None => 0,
    }
}

proof fn lemma_last_external_bound(ths: Seq<Thread>, n: int, src: int)
    requires
        src > max_source(ths, n),
    ensures
        last_external(ths, n, src) is None,
    decreases n,
{
    if n > 0 {
        lemma_last_external_bound(ths, n - 1, src);
    }
}

/// The interrupt table, stated directly: the exception and timer entries are
/// one more than the index of the last exception and timer threads (0 when
/// there is none); the external table is as long as the largest source, and
/// the entry of each source is one more than the index of the last thread
/// that serves it, or 0.
pub proof fn lemma_init_table(ths: Seq<Thread>, n: int)
    requires
        0 <= n <= ths.len(),
        sources_positive(ths),
    ensures
        init_upto(ths, n).exception == number_of(last_exception(ths, n)),
        init_upto(ths, n).timer == number_of(last_timer(ths, n)),
        init_upto(ths, n).external.len() == max_source(ths, n),
        forall|k: int|
            0 <= k < init_upto(ths, n).external.len() ==> #[trigger] init_upto(ths, n).external[k]
                == number_of(last_external(ths, n, k + 1)),
    decreases n,
{
    if n > 0 {
        lemma_init_table(ths, n - 1);
        let prev = init_upto(ths, n - 1);
        let cur = init_upto(ths, n);
        match ths[n - 1] {
            Thread::External(s, _) => {
                assert(ths[n - 1] matches Thread::External(src, _) ==> src > 0);
                assert forall|k: int| 0 <= k < cur.external.len() implies #[trigger] cur.external[k]
                    == number_of(last_external(ths, n, k + 1)) by {
                    if k == s - 1 {
                    } else if k < prev.external.len() {
                    } else {
                        assert(last_external(ths, n, k + 1) == last_external(ths, n - 1, k + 1));
                        lemma_last_external_bound(ths, n - 1, k + 1);
                    }
                }
            },
            _ => {
                assert forall|k: int| 0 <= k < cur.external.len() implies #[trigger] cur.external[k]
                    == number_of(last_external(ths, n, k + 1)) by {
                    assert(cur.external[k] == prev.external[k]);
                }
            },
        }
    }
}

// ---------------------------------------------------------------------------
// The thread pool
// ---------------------------------------------------------------------------

/// The PLIC source of each external thread among the first `i` threads,
/// with the thread's index, in order.
pub open spec fn plic_upto(ths: Seq<Thread>, i: int) -> Seq<(usize, u32)>
    decreases i,
{
    if i <= 0 {
        Seq::empty()
    } else {
        match ths[i - 1] {
            Thread::External(num, _) => plic_upto(ths, i - 1).push(((i - 1) as usize, num)),
            _ => plic_upto(ths, i - 1),
        }
    }
}

/// The index and PLIC source of each external thread, in order.
pub fn plic_sources(threads: &Vec<Thread>) -> (r: Vec<(usize, u32)>)
    ensures
        r@ == plic_upto(threads@, threads@.len() as int),
{
    let mut r: Vec<(usize, u32)> = Vec::new();
    let mut i: usize = 0;
    while i < threads.len()
        invariant
            i <= threads@.len(),
            r@ == plic_upto(threads@, i as int),
        decreases threads@.len() - i,
    {
        if let Thread::External(num, _) = &threads[i] {
            r.push((i, *num));
        }
        i = i + 1;
    }
    r
}

/// Every entry of the PLIC table names an external thread and its source,
/// the entries come in the order of the threads, and every external thread
/// has an entry.
pub proof fn lemma_plic_sources(ths: Seq<Thread>, n: int)
    requires
        0 <= n <= ths.len() <= usize::MAX,
    ensures
        forall|k: int|
            0 <= k < plic_upto(ths, n).len() ==> {
                let (i, num) = #[trigger] plic_upto(ths, n)[k];
                &&& i < n
                &&& ths[i as int] matches Thread::External(s, _) && s == num
            },
        forall|k: int, l: int|
            0 <= k < l < plic_upto(ths, n).len() ==> (#[trigger] plic_upto(ths, n)[k]).0
                < (#[trigger] plic_upto(ths, n)[l]).0,
        forall|i: int|
            0 <= i < n && (#[trigger] ths[i] is External) ==> exists|k: int|
                0 <= k < plic_upto(ths, n).len() && plic_upto(ths, n)[k].0 == i,
    decreases n,
{
    if n > 0 {
        lemma_plic_sources(ths, n - 1);
        let prev = plic_upto(ths, n - 1);
        let cur = plic_upto(ths, n);
        if ths[n - 1] is External {
            assert(cur.len() == prev.len() + 1);
            assert forall|i: int| 0 <= i < n && (#[trigger] ths[i] is External) implies exists|k: int|
                0 <= k < cur.len() && cur[k].0 == i by {
                if i == n - 1 {
                    if let Thread::External(num, _) = ths[n - 1] {
                        assert(cur == prev.push(((n - 1) as usize, num)));
                    }
                    assert(cur[prev.len() as int].0 == i);
                } else {
                    let k = choose|k: int| 0 <= k < prev.len() && prev[k].0 == i;
                    assert(cur[k] == prev[k]);
                }
            }
        }
    }
}

/// The name of the function that gives a thread's PLIC source: the thread
/// type's name in snake_case followed by `_plic_num`.
pub open spec fn plic_num_name(t: Seq<Token>, inp: InputView) -> Seq<char> {
    snake_case(ident_text(t, inp.thr.ident as int)) + "_plic_num"@
}

/// The name of the function that resumes a thread: the thread type's name
/// in snake_case followed by `_resume`.
pub open spec fn resume_name(t: Seq<Token>, inp: InputView) -> Seq<char> {
    snake_case(ident_text(t, inp.thr.ident as int)) + "_resume"@
}

// ---------------------------------------------------------------------------
// The expansion
// ---------------------------------------------------------------------------

/// Everything the expansion of `thr::clint!` is made of, besides the input's
/// own tokens.
pub struct Expansion {
    pub input: Input,
    pub init: InitTable,
    pub plic: Vec<(usize, u32)>,
    pub plic_num_fn: String,
    pub resume_fn: String,
}

/// `x` is the expansion of the input `t` that parsed to `x.input`.
pub open spec fn expansion_ok(t: Seq<Token>, x: Expansion) -> bool {
    let ths = x.input.threads@;
    &&& x.init@ == init_upto(ths, ths.len() as int)
    &&& x.plic@ == plic_upto(ths, ths.len() as int)
    &&& x.plic_num_fn@ == plic_num_name(t, x.input@)
    &&& x.resume_fn@ == resume_name(t, x.input@)
}

/// Parses the input of `thr::clint!` and computes its expansion. An external
/// thread with source 0 is not accepted (the table entry before the first
/// would be written).
pub fn proc_macro(t: &Vec<Token>) -> (r: Result<Expansion, ParseError>)
    requires
        sp_parse(t@) matches Ok(inp) ==> sources_positive(inp.threads),
    ensures
        match r {
            Ok(x) => sp_parse(t@) == Ok::<InputView, ParseError>(x.input@) && expansion_ok(t@, x),
            Err(e) => sp_parse(t@) == Err::<InputView, ParseError>(e),
        },
{
    let input = parse(t)?;
    let plic = plic_sources(&input.threads);
    let init = init_table(&input.threads);
    let base = to_snake_case(ident_str(t, input.thr.ident));
    let plic_num_fn = base.clone().concat("_plic_num");
    let resume_fn = base.concat("_resume");
    Ok(Expansion { input, init, plic, plic_num_fn, resume_fn })
}

} // verus!

verus! {

// ---------------------------------------------------------------------------
// Names in a parsed input
// ---------------------------------------------------------------------------

/// Position `i` holds an identifier that is not a keyword.
pub open spec fn names_ident(t: Seq<Token>, i: usize) -> bool {
    crate::syntax::plain_ident(t, i as int, t.len() as int)
}

/// Every thread is named by an identifier.
pub open spec fn threads_named(t: Seq<Token>, ths: Seq<Thread>) -> bool {
    forall|k: int| 0 <= k < ths.len() ==> names_ident(t, #[trigger] thread_spec(ths[k]).ident)
}

/// Every name of the sections read so far is an identifier.
pub open spec fn sections_named(t: Seq<Token>, st: SectionsView) -> bool {
    &&& (st.thr matches Some(b) ==> names_ident(t, b.ident))
    &&& (st.local matches Some(b) ==> names_ident(t, b.ident))
    &&& (st.index matches Some(d) ==> names_ident(t, d.ident))
    &&& (st.init matches Some(d) ==> names_ident(t, d.ident))
    &&& (st.threads matches Some(ths) ==> threads_named(t, ths))
}

/// Every name of the input is an identifier that is not a keyword.
pub open spec fn input_named(t: Seq<Token>, inp: InputView) -> bool {
    &&& names_ident(t, inp.thr.ident)
    &&& names_ident(t, inp.local.ident)
    &&& names_ident(t, inp.index.ident)
    &&& names_ident(t, inp.init.ident)
    &&& threads_named(t, inp.threads)
}

proof fn lemma_push_named(t: Seq<Token>, acc: Seq<Thread>, th: Thread)
    requires
        threads_named(t, acc),
        names_ident(t, thread_spec(th).ident),
    ensures
        threads_named(t, acc.push(th)),
{
    assert forall|k: int| 0 <= k < acc.push(th).len() implies names_ident(
        t,
        #[trigger] thread_spec(acc.push(th)[k]).ident,
    ) by {
        if k < acc.len() {
            assert(acc.push(th)[k] == acc[k]);
        }
    }
}

proof fn lemma_external_items_named(t: Seq<Token>, p: int, e: int, acc: Seq<Thread>)
    requires
        0 <= p,
        e <= t.len() <= usize::MAX,
        threads_named(t, acc),
    ensures
        sp_external_items(t, p, e, acc) matches Ok(r) ==> threads_named(t, r),
    decreases e - p,
{
    if p < e {
        lemma_attrs_bounds(t, p, e);
        if let Ok(a) = sp_attrs(t, p, e) {
            if let Ok(num) = sp_int(t, a, e) {
                if let Ok(q1) = sp_punct(t, a + 1, e, ':', Expected::Colon) {
                    lemma_vis_bounds(t, q1, e);
                    if let Ok((v, q2)) = sp_vis(t, q1, e) {
                        if let Ok(i) = sp_ident(t, q2, e) {
                            let s = ThreadSpec { attrs: span(p, a), vis: v, ident: i as usize };
                            lemma_push_named(t, acc, Thread::External(num, s));
                            let acc2 = acc.push(Thread::External(num, s));
                            if i + 1 < e {
                                if let Ok(q3) = sp_punct(t, i + 1, e, ';', Expected::Semi) {
                                    lemma_external_items_named(t, q3, e, acc2);
                                }
                            } else {
                                lemma_external_items_named(t, i + 1, e, acc2);
                            }
                        }
                    }
                }
            }
        }
    }
}

proof fn lemma_software_items_named(t: Seq<Token>, p: int, e: int, acc: Seq<Thread>)
    requires
        0 <= p,
        e <= t.len() <= usize::MAX,
        threads_named(t, acc),
    ensures
        sp_software_items(t, p, e, acc) matches Ok(r) ==> threads_named(t, r),
    decreases e - p,
{
    if p < e {
        lemma_attrs_bounds(t, p, e);
        if let Ok(a) = sp_attrs(t, p, e) {
            lemma_vis_bounds(t, a, e);
            if let Ok((v, q2)) = sp_vis(t, a, e) {
                if let Ok(i) = sp_ident(t, q2, e) {
                    let s = ThreadSpec { attrs: span(p, a), vis: v, ident: i as usize };
                    lemma_push_named(t, acc, Thread::Software(s));
                    let acc2 = acc.push(Thread::Software(s));
                    if i + 1 < e {
                        if let Ok(q3) = sp_punct(t, i + 1, e, ';', Expected::Semi) {
                            lemma_software_items_named(t, q3, e, acc2);
                        }
                    } else {
                        lemma_software_items_named(t, i + 1, e, acc2);
                    }
                }
            }
        }
    }
}

proof fn lemma_entry_body_named(t: Seq<Token>, p: int, a: int, q: int, e: int, acc: ThreadsAcc)
    requires
        0 <= q <= e <= t.len() <= usize::MAX,
        threads_named(t, acc.0),
    ensures
        sp_entry_body(t, p, a, q, e, acc) matches Ok((r, _)) ==> threads_named(t, r.0),
{
    lemma_group_bounds(t, q, e, Delimiter::Brace, Expected::Braces);
    if let Ok(c) = sp_group(t, q, e, Delimiter::Brace, Expected::Braces) {
        lemma_external_items_named(t, q + 1, c, acc.0);
        lemma_software_items_named(t, q + 1, c, acc.0);
    }
    lemma_vis_bounds(t, q, e);
    if let Ok((v, q2)) = sp_vis(t, q, e) {
        if let Ok(i) = sp_ident(t, q2, e) {
            let s = ThreadSpec { attrs: span(p, a), vis: v, ident: i as usize };
            lemma_push_named(t, acc.0, Thread::Exception(s));
            lemma_push_named(t, acc.0, Thread::Timer(s));
        }
    }
}

proof fn lemma_entries_named(t: Seq<Token>, p: int, e: int, acc: ThreadsAcc)
    requires
        0 <= p,
        e <= t.len() <= usize::MAX,
        threads_named(t, acc.0),
    ensures
        sp_entries(t, p, e, acc) matches Ok(r) ==> threads_named(t, r),
    decreases e - p,
{
    if p < e {
        lemma_attrs_bounds(t, p, e);
        if let Ok(a) = sp_attrs(t, p, e) {
            if let Ok(_) = sp_ident(t, a, e) {
                if let Ok(q1) = sp_fat_arrow(t, a + 1, e) {
                    lemma_entry_body_bounds(t, p, a, q1, e, acc);
                    lemma_entry_body_named(t, p, a, q1, e, acc);
                    if let Ok((acc2, q2)) = sp_entry_body(t, p, a, q1, e, acc) {
                        if q2 < e {
                            if let Ok(q3) = sp_punct(t, q2, e, ';', Expected::Semi) {
                                lemma_entries_named(t, q3, e, acc2);
                            }
                        } else {
                            lemma_entries_named(t, q2, e, acc2);
                        }
                    }
                }
            }
        }
    }
}

proof fn lemma_item_body_named(t: Seq<Token>, p: int, a: int, q: int, e: int, st: SectionsView)
    requires
        0 <= q <= e <= t.len() <= usize::MAX,
        sections_named(t, st),
    ensures
        sp_item_body(t, p, a, q, e, st) matches Ok((r, _)) ==> sections_named(t, r),
{
    lemma_vis_bounds(t, q, e);
    lemma_group_bounds(t, q, e, Delimiter::Brace, Expected::Braces);
    if let Ok(c) = sp_group(t, q, e, Delimiter::Brace, Expected::Braces) {
        lemma_entries_named(t, q + 1, c, (Seq::empty(), false, false));
    }
}

proof fn lemma_items_named(t: Seq<Token>, p: int, e: int, st: SectionsView)
    requires
        0 <= p,
        e <= t.len() <= usize::MAX,
        sections_named(t, st),
    ensures
        sp_items(t, p, e, st) matches Ok(r) ==> sections_named(t, r),
    decreases e - p,
{
    if p < e {
        lemma_attrs_bounds(t, p, e);
        if let Ok(a) = sp_attrs(t, p, e) {
            if let Ok(_) = sp_ident(t, a, e) {
                if let Ok(q1) = sp_fat_arrow(t, a + 1, e) {
                    lemma_item_body_bounds(t, p, a, q1, e, st);
                    lemma_item_body_named(t, p, a, q1, e, st);
                    if let Ok((st2, q2)) = sp_item_body(t, p, a, q1, e, st) {
                        if q2 < e {
                            if let Ok(q3) = sp_punct(t, q2, e, ';', Expected::Semi) {
                                lemma_items_named(t, q3, e, st2);
                            }
                        } else {
                            lemma_items_named(t, q2, e, st2);
                        }
                    }
                }
            }
        }
    }
}

/// A parsed input names its thread type, thread-local type, index, init
/// token and every thread by an identifier that is not a keyword, so every
/// name position that the expansion reads holds one.
pub proof fn lemma_parse_named(t: Seq<Token>)
    requires
        t.len() <= usize::MAX,
    ensures
        sp_parse(t) matches Ok(inp) ==> input_named(t, inp),
{
    lemma_items_named(t, 0, t.len() as int, no_sections());
}

} // verus!

verus! {

/// The last thread found for a source serves that source.
proof fn lemma_last_external_serves(ths: Seq<Thread>, n: int, src: int)
    requires
        0 <= n <= ths.len(),
    ensures
        last_external(ths, n, src) matches Some(i) ==> 0 <= i < n && (ths[i] matches Thread::External(
            s,
            _,
        ) && s == src),
    decreases n,
{
    if n > 0 {
        lemma_last_external_serves(ths, n - 1, src);
    }
}

/// The interrupt table and the PLIC table agree: when the table names a
/// thread for source `k + 1` (by its index plus one), the PLIC table gives
/// that thread's index the same source, so the thread that an external
/// interrupt wakes completes the source that was claimed.
pub proof fn lemma_tables_agree(ths: Seq<Thread>)
    requires
        ths.len() <= usize::MAX,
        sources_positive(ths),
    ensures
        forall|k: int|
            0 <= k < init_upto(ths, ths.len() as int).external.len() && #[trigger] init_upto(
                ths,
                ths.len() as int,
            ).external[k] != 0 ==> exists|j: int|
                0 <= j < plic_upto(ths, ths.len() as int).len() && plic_upto(
                    ths,
                    ths.len() as int,
                )[j] == ((init_upto(ths, ths.len() as int).external[k] - 1) as usize, (k + 1) as u32),
{
    let n = ths.len() as int;
    lemma_init_table(ths, n);
    lemma_plic_sources(ths, n);
    let tab = init_upto(ths, n);
    let plic = plic_upto(ths, n);
    assert forall|k: int| 0 <= k < tab.external.len() && #[trigger] tab.external[k] != 0 implies exists|j: int|
        0 <= j < plic.len() && plic[j] == ((tab.external[k] - 1) as usize, (k + 1) as u32) by {
        lemma_last_external_serves(ths, n, k + 1);
        let i = last_external(ths, n, k + 1).unwrap();
        assert(ths[i] is External);
        let j = choose|j: int| 0 <= j < plic.len() && plic[j].0 == i;
        assert(plic[j].0 == i);
    }
}

} // verus!

verus! {

// ---------------------------------------------------------------------------
// One exception thread, one timer thread
// ---------------------------------------------------------------------------

/// Some thread serves exceptions.
pub open spec fn has_exception(ths: Seq<Thread>) -> bool {
    exists|i: int| 0 <= i < ths.len() && (#[trigger] ths[i]) is Exception
}

/// Some thread serves the timer.
pub open spec fn has_timer(ths: Seq<Thread>) -> bool {
    exists|i: int| 0 <= i < ths.len() && (#[trigger] ths[i]) is Timer
}

/// No two threads serve exceptions, and no two serve the timer.
pub open spec fn one_each(ths: Seq<Thread>) -> bool {
    forall|i: int, j: int|
        0 <= i < j < ths.len() ==> !((#[trigger] ths[i]) is Exception && (#[trigger] ths[j]) is Exception)
            && !(ths[i] is Timer && ths[j] is Timer)
}

/// The flags of the threads read so far tell whether an exception and a
/// timer thread are among them, and there is at most one of each.
pub open spec fn acc_ok(acc: ThreadsAcc) -> bool {
    &&& acc.1 == has_exception(acc.0)
    &&& acc.2 == has_timer(acc.0)
    &&& one_each(acc.0)
}

proof fn lemma_push_ok(acc: ThreadsAcc, th: Thread, exc: bool, tim: bool)
    requires
        acc_ok(acc),
        th is Exception ==> !acc.1 && exc,
        th is Timer ==> !acc.2 && tim,
        !(th is Exception) ==> exc == acc.1,
        !(th is Timer) ==> tim == acc.2,
    ensures
        acc_ok((acc.0.push(th), exc, tim)),
{
    let s = acc.0.push(th);
    assert forall|i: int| 0 <= i < acc.0.len() implies s[i] == acc.0[i] by {}
    if th is Exception {
        assert(s[acc.0.len() as int] is Exception);
    }
    if th is Timer {
        assert(s[acc.0.len() as int] is Timer);
    }
    if has_exception(s) && !(th is Exception) {
        let i = choose|i: int| 0 <= i < s.len() && (#[trigger] s[i]) is Exception;
        assert(acc.0[i] is Exception);
    }
    if has_timer(s) && !(th is Timer) {
        let i = choose|i: int| 0 <= i < s.len() && (#[trigger] s[i]) is Timer;
        assert(acc.0[i] is Timer);
    }
    if has_exception(acc.0) {
        let i = choose|i: int| 0 <= i < acc.0.len() && (#[trigger] acc.0[i]) is Exception;
        assert(s[i] is Exception);
    }
    if has_timer(acc.0) {
        let i = choose|i: int| 0 <= i < acc.0.len() && (#[trigger] acc.0[i]) is Timer;
        assert(s[i] is Timer);
    }
    assert forall|i: int, j: int| 0 <= i < j < s.len() implies !((#[trigger] s[i]) is Exception && (
    #[trigger] s[j]) is Exception) && !(s[i] is Timer && s[j] is Timer) by {
        if j == acc.0.len() {
            if th is Exception {
                assert(!(acc.0[i] is Exception));
            }
            if th is Timer {
                assert(!(acc.0[i] is Timer));
            }
        } else {
            assert(s[j] == acc.0[j]);
        }
    }
}

proof fn lemma_external_items_ok(t: Seq<Token>, p: int, e: int, acc: ThreadsAcc)
    requires
        acc_ok(acc),
    ensures
        sp_external_items(t, p, e, acc.0) matches Ok(r) ==> acc_ok((r, acc.1, acc.2)),
    decreases e - p,
{
    if p < e {
        lemma_attrs_bounds(t, p, e);
        if let Ok(a) = sp_attrs(t, p, e) {
            if let Ok(num) = sp_int(t, a, e) {
                if let Ok(q1) = sp_punct(t, a + 1, e, ':', Expected::Colon) {
                    lemma_vis_bounds(t, q1, e);
                    if let Ok((v, q2)) = sp_vis(t, q1, e) {
                        if let Ok(i) = sp_ident(t, q2, e) {
                            let s = ThreadSpec { attrs: span(p, a), vis: v, ident: i as usize };
                            let th = Thread::External(num, s);
                            lemma_push_ok(acc, th, acc.1, acc.2);
                            let acc2 = (acc.0.push(th), acc.1, acc.2);
                            if i + 1 < e {
                                if let Ok(q3) = sp_punct(t, i + 1, e, ';', Expected::Semi) {
                                    lemma_external_items_ok(t, q3, e, acc2);
                                }
                            } else {
                                lemma_external_items_ok(t, i + 1, e, acc2);
                            }
                        }
                    }
                }
            }
        }
    }
}

proof fn lemma_software_items_ok(t: Seq<Token>, p: int, e: int, acc: ThreadsAcc)
    requires
        acc_ok(acc),
    ensures
        sp_software_items(t, p, e, acc.0) matches Ok(r) ==> acc_ok((r, acc.1, acc.2)),
    decreases e - p,
{
    if p < e {
        lemma_attrs_bounds(t, p, e);
        if let Ok(a) = sp_attrs(t, p, e) {
            lemma_vis_bounds(t, a, e);
            if let Ok((v, q2)) = sp_vis(t, a, e) {
                if let Ok(i) = sp_ident(t, q2, e) {
                    let s = ThreadSpec { attrs: span(p, a), vis: v, ident: i as usize };
                    let th = Thread::Software(s);
                    lemma_push_ok(acc, th, acc.1, acc.2);
                    let acc2 = (acc.0.push(th), acc.1, acc.2);
                    if i + 1 < e {
                        if let Ok(q3) = sp_punct(t, i + 1, e, ';', Expected::Semi) {
                            lemma_software_items_ok(t, q3, e, acc2);
                        }
                    } else {
                        lemma_software_items_ok(t, i + 1, e, acc2);
                    }
                }
            }
        }
    }
}

proof fn lemma_entry_body_ok(t: Seq<Token>, p: int, a: int, q: int, e: int, acc: ThreadsAcc)
    requires
        acc_ok(acc),
    ensures
        sp_entry_body(t, p, a, q, e, acc) matches Ok((r, _)) ==> acc_ok(r),
{
    if let Ok(c) = sp_group(t, q, e, Delimiter::Brace, Expected::Braces) {
        lemma_external_items_ok(t, q + 1, c, acc);
        lemma_software_items_ok(t, q + 1, c, acc);
    }
    if let Ok((v, q2)) = sp_vis(t, q, e) {
        if let Ok(i) = sp_ident(t, q2, e) {
            let s = ThreadSpec { attrs: span(p, a), vis: v, ident: i as usize };
            if !acc.1 {
                lemma_push_ok(acc, Thread::Exception(s), true, acc.2);
            }
            if !acc.2 {
                lemma_push_ok(acc, Thread::Timer(s), acc.1, true);
            }
        }
    }
}

proof fn lemma_entries_ok(t: Seq<Token>, p: int, e: int, acc: ThreadsAcc)
    requires
        acc_ok(acc),
    ensures
        sp_entries(t, p, e, acc) matches Ok(r) ==> one_each(r),
    decreases e - p,
{
    if p < e {
        lemma_attrs_bounds(t, p, e);
        if let Ok(a) = sp_attrs(t, p, e) {
            if let Ok(_) = sp_ident(t, a, e) {
                if let Ok(q1) = sp_fat_arrow(t, a + 1, e) {
                    lemma_entry_body_bounds(t, p, a, q1, e, acc);
                    lemma_entry_body_ok(t, p, a, q1, e, acc);
                    if let Ok((acc2, q2)) = sp_entry_body(t, p, a, q1, e, acc) {
                        if q2 < e {
                            if let Ok(q3) = sp_punct(t, q2, e, ';', Expected::Semi) {
                                lemma_entries_ok(t, q3, e, acc2);
                            }
                        } else {
                            lemma_entries_ok(t, q2, e, acc2);
                        }
                    }
                }
            }
        }
    }
}

/// The threads read so far keep at most one of each.
pub open spec fn sections_one_each(st: SectionsView) -> bool {
    st.threads matches Some(ths) ==> one_each(ths)
}

proof fn lemma_items_one_each(t: Seq<Token>, p: int, e: int, st: SectionsView)
    requires
        sections_one_each(st),
    ensures
        sp_items(t, p, e, st) matches Ok(r) ==> sections_one_each(r),
    decreases e - p,
{
    if p < e {
        lemma_attrs_bounds(t, p, e);
        if let Ok(a) = sp_attrs(t, p, e) {
            if let Ok(_) = sp_ident(t, a, e) {
                if let Ok(q1) = sp_fat_arrow(t, a + 1, e) {
                    lemma_item_body_bounds(t, p, a, q1, e, st);
                    if let Ok(c) = sp_group(t, q1, e, Delimiter::Brace, Expected::Braces) {
                        let acc0: ThreadsAcc = (Seq::empty(), false, false);
                        assert(acc_ok(acc0));
                        lemma_entries_ok(t, q1 + 1, c, acc0);
                    }
                    if let Ok((st2, q2)) = sp_item_body(t, p, a, q1, e, st) {
                        if q2 < e {
                            if let Ok(q3) = sp_punct(t, q2, e, ';', Expected::Semi) {
                                lemma_items_one_each(t, q3, e, st2);
                            }
                        } else {
                            lemma_items_one_each(t, q2, e, st2);
                        }
                    }
                }
            }
        }
    }
}

/// A parsed input has at most one exception thread and at most one timer
/// thread: a second one is refused.
pub proof fn lemma_parse_one_each(t: Seq<Token>)
    ensures
        sp_parse(t) matches Ok(inp) ==> one_each(inp.threads),
{
    lemma_items_one_each(t, 0, t.len() as int, no_sections());
}

} // verus!

verus! {

// ---------------------------------------------------------------------------
// Sections in any order
// ---------------------------------------------------------------------------

/// What a section holds once read.
pub enum SectionValue {
    Block(Block),
    Decl(Decl),
    Threads(Seq<Thread>),
}

/// The section that the word at `a` opens (`threads` only without
/// attributes, `p` being where the attributes start); none for another word.
pub open spec fn section_at(t: Seq<Token>, p: int, a: int, e: int) -> Option<Section> {
    if ident_is(t, a, e, "thread"@) {
        Some(Section::Thread)
    } else if ident_is(t, a, e, "local"@) {
        Some(Section::Local)
    } else if ident_is(t, a, e, "index"@) {
        Some(Section::Index)
    } else if ident_is(t, a, e, "init"@) {
        Some(Section::Init)
    } else if a == p && ident_is(t, a, e, "threads"@) {
        Some(Section::Threads)
    } else {
        None
    }
}

/// Reads the body of section `sec` after its `=>` at `q`, whatever was read
/// before it.
pub open spec fn sp_section_value(t: Seq<Token>, p: int, a: int, q: int, e: int, sec: Section) -> Result<
    (SectionValue, int),
    ParseError,
> {
    match sec {
        Section::Thread | Section::Local => match sp_block(t, q, e, span(p, a)) {
            Err(x) => Err(x),
            Ok((b, q2)) => Ok((SectionValue::Block(b), q2)),
        },
        Section::Index | Section::Init => match sp_decl(t, q, e, span(p, a)) {
            Err(x) => Err(x),
            Ok((d, q2)) => Ok((SectionValue::Decl(d), q2)),
        },
        Section::Threads => match sp_threads(t, q, e) {
            Err(x) => Err(x),
            Ok((ths, q2)) => Ok((SectionValue::Threads(ths), q2)),
        },
    }
}

/// Whether section `sec` was read already.
pub open spec fn filled(st: SectionsView, sec: Section) -> bool {
    match sec {
        Section::Thread => st.thr is Some,
        Section::Local => st.local is Some,
        Section::Index => st.index is Some,
        Section::Init => st.init is Some,
        Section::Threads => st.threads is Some,
    }
}

/// `st` with section `sec` holding `v`, the other sections as they were.
pub open spec fn fill(st: SectionsView, sec: Section, v: SectionValue) -> SectionsView {
    match (sec, v) {
        (Section::Thread, SectionValue::Block(b)) => SectionsView { thr: Some(b), ..st },
        (Section::Local, SectionValue::Block(b)) => SectionsView { local: Some(b), ..st },
        (Section::Index, SectionValue::Decl(d)) => SectionsView { index: Some(d), ..st },
        (Section::Init, SectionValue::Decl(d)) => SectionsView { init: Some(d), ..st },
        (Section::Threads, SectionValue::Threads(ths)) => SectionsView { threads: Some(ths), ..st },
        _ => st,
    }
}

/// A section reads the same wherever it stands: reading the item whose word
/// is at `a` passes over a word that names no section, refuses a section
/// read before, and otherwise reads the section's body without regard to
/// the sections read before it and fills that section alone.
pub proof fn lemma_section_reading(t: Seq<Token>, p: int, a: int, q: int, e: int, st: SectionsView)
    ensures
        sp_item_body(t, p, a, q, e, st) == match section_at(t, p, a, e) {
            None => Ok((st, q)),
            Some(sec) => if filled(st, sec) {
                Err(err(ErrorKind::Multiple(sec), q))
            } else {
                match sp_section_value(t, p, a, q, e, sec) {
                    Err(x) => Err(x),
                    Ok((v, q2)) => Ok((fill(st, sec, v), q2)),
                }
            },
        },
{
}

/// Filling two different sections gives the same state in either order.
pub proof fn lemma_fill_commutes(
    st: SectionsView,
    s1: Section,
    v1: SectionValue,
    s2: Section,
    v2: SectionValue,
)
    requires
        s1 != s2,
    ensures
        fill(fill(st, s1, v1), s2, v2) == fill(fill(st, s2, v2), s1, v1),
        filled(fill(st, s1, v1), s2) == filled(st, s2),
{
}

// ---------------------------------------------------------------------------
// Laws of the `threads` entries
// ---------------------------------------------------------------------------

proof fn lemma_words_differ(t: Seq<Token>, a: int, e: int)
    ensures
        ident_is(t, a, e, "exception"@) ==> !ident_is(t, a, e, "external"@) && !ident_is(
            t,
            a,
            e,
            "software"@,
        ) && !ident_is(t, a, e, "timer"@),
        ident_is(t, a, e, "timer"@) ==> !ident_is(t, a, e, "external"@) && !ident_is(
            t,
            a,
            e,
            "software"@,
        ),
{
    reveal_strlit("exception");
    reveal_strlit("timer");
    reveal_strlit("external");
    reveal_strlit("software");
    assert("exception"@.len() == 9 && "timer"@.len() == 5);
    assert("external"@.len() == 8 && "software"@.len() == 8);
}

/// Whether an exception entry reads does not depend on whether a timer
/// thread was read before it, nor whether a timer entry reads on whether an
/// exception thread was: the two are counted apart, so one exception and
/// one timer entry read in either order.
pub proof fn lemma_entry_flags_apart(
    t: Seq<Token>,
    p: int,
    a: int,
    q: int,
    e: int,
    ths: Seq<Thread>,
    exc: bool,
    tim: bool,
    other: bool,
)
    ensures
        ident_is(t, a, e, "exception"@) ==> (sp_entry_body(t, p, a, q, e, (ths, exc, tim)) is Ok
            <==> sp_entry_body(t, p, a, q, e, (ths, exc, other)) is Ok),
        ident_is(t, a, e, "timer"@) ==> (sp_entry_body(t, p, a, q, e, (ths, exc, tim)) is Ok
            <==> sp_entry_body(t, p, a, q, e, (ths, other, tim)) is Ok),
{
    lemma_words_differ(t, a, e);
}

/// An exception entry is refused as a second exception thread only when an
/// exception thread was read before it, and a timer entry as a second timer
/// thread only when a timer thread was: an entry whose visibility and name
/// read is read when no thread of its kind came before it.
pub proof fn lemma_entry_first_of_kind(t: Seq<Token>, p: int, a: int, q: int, e: int, acc: ThreadsAcc)
    requires
        acc_ok(acc),
        sp_vis(t, q, e) is Ok,
        sp_ident(t, sp_vis(t, q, e)->Ok_0.1, e) is Ok,
    ensures
        ident_is(t, a, e, "exception"@) && !has_exception(acc.0) ==> sp_entry_body(t, p, a, q, e, acc) is Ok,
        ident_is(t, a, e, "timer"@) && !has_timer(acc.0) ==> sp_entry_body(t, p, a, q, e, acc) is Ok,
{
    lemma_words_differ(t, a, e);
}

/// Outer attributes before `exception =>` or `timer =>` do not change
/// whether the entry reads; read, it adds one exception or timer thread
/// whose attributes are the ones from `p` up to the word.
#[verifier::spinoff_prover]
pub proof fn lemma_entry_attrs(
    t: Seq<Token>,
    p: int,
    p2: int,
    a: int,
    q: int,
    e: int,
    acc: ThreadsAcc,
)
    requires
        p <= a,
        p2 <= a,
        ident_is(t, a, e, "exception"@) || ident_is(t, a, e, "timer"@),
    ensures
        sp_entry_body(t, p, a, q, e, acc) is Ok <==> sp_entry_body(t, p2, a, q, e, acc) is Ok,
        sp_entry_body(t, p, a, q, e, acc) matches Ok((r, _)) ==> {
            &&& r.0.len() == acc.0.len() + 1
            &&& r.0.drop_last() == acc.0
            &&& thread_spec(r.0.last()).attrs == span(p, a)
            &&& (ident_is(t, a, e, "exception"@) ==> r.0.last() is Exception && r.1 && r.2 == acc.2)
            &&& (ident_is(t, a, e, "timer"@) ==> r.0.last() is Timer && r.2 && r.1 == acc.1)
        },
        sp_entry_body(t, p, a, q, e, acc) matches Ok((r, q2)) ==> {
            &&& sp_vis(t, q, e) is Ok
            &&& sp_vis(t, q, e)->Ok_0.0 == thread_spec(r.0.last()).vis
            &&& sp_ident(t, sp_vis(t, q, e)->Ok_0.1, e) is Ok
            &&& thread_spec(r.0.last()).ident == sp_ident(t, sp_vis(t, q, e)->Ok_0.1, e)->Ok_0 as usize
            &&& q2 == sp_ident(t, sp_vis(t, q, e)->Ok_0.1, e)->Ok_0 + 1
        },
{
    lemma_words_differ(t, a, e);
    if let Ok((r, _)) = sp_entry_body(t, p, a, q, e, acc) {
        assert(r.0.drop_last() =~= acc.0);
    }
}

// ---------------------------------------------------------------------------
// Laws of the thread lists
// ---------------------------------------------------------------------------

/// A list read with `acc` before it: `acc` followed by the list read alone.
pub open spec fn after(acc: Seq<Thread>, r: Result<Seq<Thread>, ParseError>) -> Result<
    Seq<Thread>,
    ParseError,
> {
    match r {
        Ok(ths) => Ok(acc + ths),
        Err(x) => Err(x),
    }
}

/// Software items append to what was read before them and change nothing
/// of it.
#[verifier::spinoff_prover]
#[verifier::rlimit(40)]
pub proof fn lemma_software_items_append(t: Seq<Token>, p: int, e: int, acc: Seq<Thread>)
    ensures
        sp_software_items(t, p, e, acc) == after(acc, sp_software_items(t, p, e, Seq::empty())),
    decreases e - p,
{
    if p >= e {
        assert(acc + Seq::<Thread>::empty() =~= acc);
    } else if let Ok(a) = sp_attrs(t, p, e) {
        if let Ok((v, q2)) = sp_vis(t, a, e) {
            if let Ok(i) = sp_ident(t, q2, e) {
                lemma_attrs_bounds(t, p, e);
                lemma_vis_bounds(t, a, e);
                let th = Thread::Software(ThreadSpec { attrs: span(p, a), vis: v, ident: i as usize });
                let one = Seq::<Thread>::empty().push(th);
                let q = if i + 1 < e {
                    i + 2
                } else {
                    i + 1
                };
                lemma_software_items_append(t, q, e, acc.push(th));
                lemma_software_items_append(t, q, e, one);
                if let Ok(r) = sp_software_items(t, q, e, Seq::empty()) {
                    assert(acc.push(th) + r =~= acc + (one + r));
                }
            }
        }
    }
}

/// Every item of a `software` group is a software thread, in order: the
/// first item gives the first thread, and the threads of the items after
/// its `;` follow it; the last item gives the last thread.
pub proof fn lemma_software_items_each(t: Seq<Token>, p: int, e: int)
    requires
        p < e,
        sp_attrs(t, p, e) is Ok,
        sp_vis(t, sp_attrs(t, p, e)->Ok_0, e) is Ok,
        sp_ident(t, sp_vis(t, sp_attrs(t, p, e)->Ok_0, e)->Ok_0.1, e) is Ok,
    ensures
        ({
            let a = sp_attrs(t, p, e)->Ok_0;
            let (v, q2) = sp_vis(t, a, e)->Ok_0;
            let i = sp_ident(t, q2, e)->Ok_0;
            let first = Seq::<Thread>::empty().push(
                Thread::Software(ThreadSpec { attrs: span(p, a), vis: v, ident: i as usize }),
            );
            &&& i + 1 >= e ==> sp_software_items(t, p, e, Seq::empty()) == Ok::<
                Seq<Thread>,
                ParseError,
            >(first)
            &&& (i + 1 < e && punct_is(t, i + 1, e, ';')) ==> sp_software_items(t, p, e, Seq::empty())
                == after(first, sp_software_items(t, i + 2, e, Seq::empty()))
        }),
{
    let a = sp_attrs(t, p, e)->Ok_0;
    let (v, q2) = sp_vis(t, a, e)->Ok_0;
    let i = sp_ident(t, q2, e)->Ok_0;
    lemma_attrs_bounds(t, p, e);
    lemma_vis_bounds(t, a, e);
    let first = Seq::<Thread>::empty().push(
        Thread::Software(ThreadSpec { attrs: span(p, a), vis: v, ident: i as usize }),
    );
    lemma_software_items_append(t, i + 2, e, first);
    lemma_software_items_append(t, i + 1, e, first);
    assert(first + Seq::<Thread>::empty() =~= first);
}

/// External items append to what was read before them and change nothing
/// of it.
#[verifier::spinoff_prover]
#[verifier::rlimit(40)]
pub proof fn lemma_external_items_append(t: Seq<Token>, p: int, e: int, acc: Seq<Thread>)
    ensures
        sp_external_items(t, p, e, acc) == after(acc, sp_external_items(t, p, e, Seq::empty())),
    decreases e - p,
{
    if p >= e {
        assert(acc + Seq::<Thread>::empty() =~= acc);
    } else if let Ok(a) = sp_attrs(t, p, e) {
        if let Ok(num) = sp_int(t, a, e) {
            if let Ok(q1) = sp_punct(t, a + 1, e, ':', Expected::Colon) {
                if let Ok((v, q2)) = sp_vis(t, q1, e) {
                    if let Ok(i) = sp_ident(t, q2, e) {
                        lemma_attrs_bounds(t, p, e);
                        lemma_vis_bounds(t, q1, e);
                        let th = Thread::External(
                            num,
                            ThreadSpec { attrs: span(p, a), vis: v, ident: i as usize },
                        );
                        let one = Seq::<Thread>::empty().push(th);
                        let q = if i + 1 < e {
                            i + 2
                        } else {
                            i + 1
                        };
                        lemma_external_items_append(t, q, e, acc.push(th));
                        lemma_external_items_append(t, q, e, one);
                        if let Ok(r) = sp_external_items(t, q, e, Seq::empty()) {
                            assert(acc.push(th) + r =~= acc + (one + r));
                        }
                    }
                }
            }
        }
    }
}

/// Every item of an `external` group is an external thread with its source
/// number, in order: the first item gives the first thread, and the threads
/// of the items after its `;` follow it; the last item gives the last
/// thread.
pub proof fn lemma_external_items_each(t: Seq<Token>, p: int, e: int)
    requires
        p < e,
        sp_attrs(t, p, e) is Ok,
        sp_int(t, sp_attrs(t, p, e)->Ok_0, e) is Ok,
        punct_is(t, sp_attrs(t, p, e)->Ok_0 + 1, e, ':'),
        sp_vis(t, sp_attrs(t, p, e)->Ok_0 + 2, e) is Ok,
        sp_ident(t, sp_vis(t, sp_attrs(t, p, e)->Ok_0 + 2, e)->Ok_0.1, e) is Ok,
    ensures
        ({
            let a = sp_attrs(t, p, e)->Ok_0;
            let num = sp_int(t, a, e)->Ok_0;
            let (v, q2) = sp_vis(t, a + 2, e)->Ok_0;
            let i = sp_ident(t, q2, e)->Ok_0;
            let first = Seq::<Thread>::empty().push(
                Thread::External(num, ThreadSpec { attrs: span(p, a), vis: v, ident: i as usize }),
            );
            &&& i + 1 >= e ==> sp_external_items(t, p, e, Seq::empty()) == Ok::<
                Seq<Thread>,
                ParseError,
            >(first)
            &&& (i + 1 < e && punct_is(t, i + 1, e, ';')) ==> sp_external_items(t, p, e, Seq::empty())
                == after(first, sp_external_items(t, i + 2, e, Seq::empty()))
        }),
{
    let a = sp_attrs(t, p, e)->Ok_0;
    let num = sp_int(t, a, e)->Ok_0;
    let (v, q2) = sp_vis(t, a + 2, e)->Ok_0;
    let i = sp_ident(t, q2, e)->Ok_0;
    lemma_attrs_bounds(t, p, e);
    lemma_vis_bounds(t, a + 2, e);
    let first = Seq::<Thread>::empty().push(
        Thread::External(num, ThreadSpec { attrs: span(p, a), vis: v, ident: i as usize }),
    );
    lemma_external_items_append(t, i + 2, e, first);
    lemma_external_items_append(t, i + 1, e, first);
    assert(first + Seq::<Thread>::empty() =~= first);
}

/// `external` and `software` take no attributes: with attributes before
/// them they are refused as unexpected words, as is any word other than
/// `exception`, `timer`, `external` and `software`.
pub proof fn lemma_entry_words(t: Seq<Token>, p: int, a: int, q: int, e: int, acc: ThreadsAcc)
    ensures
        a != p && (ident_is(t, a, e, "external"@) || ident_is(t, a, e, "software"@)) ==> sp_entry_body(
            t,
            p,
            a,
            q,
            e,
            acc,
        ) == Err::<(ThreadsAcc, int), ParseError>(err(ErrorKind::UnexpectedIdent(a as usize), q)),
        !(ident_is(t, a, e, "external"@) || ident_is(t, a, e, "software"@) || ident_is(
            t,
            a,
            e,
            "exception"@,
        ) || ident_is(t, a, e, "timer"@)) ==> sp_entry_body(t, p, a, q, e, acc) == Err::<
            (ThreadsAcc, int),
            ParseError,
        >(err(ErrorKind::UnexpectedIdent(a as usize), q)),
{
    lemma_words_differ(t, a, e);
    reveal_strlit("external");
    reveal_strlit("software");
    assert("external"@[0] != "software"@[0]);
}

/// A second exception entry, or a second timer entry, whose visibility and
/// name read is refused just after its name.
pub proof fn lemma_entry_second_refused(t: Seq<Token>, p: int, a: int, q: int, e: int, acc: ThreadsAcc)
    requires
        sp_vis(t, q, e) is Ok,
        sp_ident(t, sp_vis(t, q, e)->Ok_0.1, e) is Ok,
    ensures
        ident_is(t, a, e, "exception"@) && acc.1 ==> sp_entry_body(t, p, a, q, e, acc) == Err::<
            (ThreadsAcc, int),
            ParseError,
        >(err(ErrorKind::MultipleException, sp_ident(t, sp_vis(t, q, e)->Ok_0.1, e)->Ok_0 + 1)),
        ident_is(t, a, e, "timer"@) && acc.2 ==> sp_entry_body(t, p, a, q, e, acc) == Err::<
            (ThreadsAcc, int),
            ParseError,
        >(err(ErrorKind::MultipleTimer, sp_ident(t, sp_vis(t, q, e)->Ok_0.1, e)->Ok_0 + 1)),
{
    lemma_words_differ(t, a, e);
}

} // verus!
