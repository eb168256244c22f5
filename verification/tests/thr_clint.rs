use drone_riscv::thr_clint::{parse, proc_macro, Input, Thread};
use drone_riscv::token::{Delimiter, ErrorKind, Expected, ParseError, Section, Spacing, Token};
use proc_macro2::{TokenStream, TokenTree};

fn flatten(stream: TokenStream, out: &mut Vec<Token>) {
    for tt in stream {
        match tt {
            TokenTree::Group(g) => {
                let d = match g.delimiter() {
                    proc_macro2::Delimiter::Parenthesis => Some(Delimiter::Parenthesis),
                    proc_macro2::Delimiter::Brace => Some(Delimiter::Brace),
                    proc_macro2::Delimiter::Bracket => Some(Delimiter::Bracket),
                    proc_macro2::Delimiter::None => None,
                };
                if let Some(d) = d {
                    out.push(Token::Open(d));
                    flatten(g.stream(), out);
                    out.push(Token::Close(d));
                } else {
                    flatten(g.stream(), out);
                }
            }
            TokenTree::Ident(i) => out.push(Token::Ident(i.to_string())),
            TokenTree::Punct(p) => out.push(Token::Punct(
                p.as_char(),
                match p.spacing() {
                    proc_macro2::Spacing::Joint => Spacing::Joint,
                    proc_macro2::Spacing::Alone => Spacing::Alone,
                },
            )),
            TokenTree::Literal(l) => out.push(Token::Literal(l.to_string())),
        }
    }
}

fn lex(s: &str) -> Vec<Token> {
    let mut out = Vec::new();
    flatten(s.parse::<TokenStream>().unwrap(), &mut out);
    out
}

fn ident_at(t: &[Token], i: usize) -> String {
    match &t[i] {
        Token::Ident(s) => s.clone(),
        _ => panic!("no identifier at {}", i),
    }
}

fn error_of(t: &Vec<Token>) -> ParseError {
    match proc_macro(t) {
        Err(e) => e,
        Ok(_) => panic!("parsed"),
    }
}

const SECTIONS: &str = "thread => pub ThrPool { a: u8 }; local => pub ThrLocal {}; \
                        index => pub Thrs; init => pub ThrsInit;";

fn input(threads: &str) -> Vec<Token> {
    lex(&format!("{} threads => {{ {} }};", SECTIONS, threads))
}

const THREADS: &str = "exception => pub hard_fault; timer => pub sys_tick; \
     external => { 3: pub uart_rx; #[doc = \"x\"] 1: pub gpio }; \
     software => { pub worker };";

#[test]
fn clint_parses_threads_in_order() {
    let t = input(THREADS);
    let x = proc_macro(&t).unwrap();
    let ths = &x.input.threads;
    assert_eq!(ths.len(), 5);
    assert!(matches!(ths[0], Thread::Exception(_)));
    assert!(matches!(ths[1], Thread::Timer(_)));
    assert!(matches!(ths[2], Thread::External(3, _)));
    assert!(matches!(ths[3], Thread::External(1, _)));
    assert!(matches!(ths[4], Thread::Software(_)));
    if let Thread::External(_, s) = ths[3] {
        assert_eq!(ident_at(&t, s.ident), "gpio");
        assert_eq!(s.attrs.end - s.attrs.start, 6);
    }
    assert_eq!(ident_at(&t, x.input.thr.ident), "ThrPool");
}

#[test]
fn clint_interrupt_table_holds_index_plus_one() {
    let t = input(THREADS);
    let x = proc_macro(&t).unwrap();
    assert_eq!(x.init.exception, 1);
    assert_eq!(x.init.timer, 2);
    assert_eq!(x.init.external, vec![4, 0, 3]);
}

#[test]
fn clint_table_without_exception_or_timer() {
    let t = input("software => { pub a; pub b }; external => { 2: pub c; 2: pub d }");
    let x = proc_macro(&t).unwrap();
    assert_eq!(x.init.exception, 0);
    assert_eq!(x.init.timer, 0);
    assert_eq!(x.init.external, vec![0, 4]);
}

#[test]
fn clint_plic_sources_by_thread_index() {
    let t = input(THREADS);
    let x = proc_macro(&t).unwrap();
    assert_eq!(x.plic, vec![(2, 3), (3, 1)]);
}

#[test]
fn clint_function_names_are_snake_case() {
    let t = input(THREADS);
    let x = proc_macro(&t).unwrap();
    assert_eq!(x.plic_num_fn, "thr_pool_plic_num");
    assert_eq!(x.resume_fn, "thr_pool_resume");
}

#[test]
fn clint_sections_in_any_order() {
    let t = lex("threads => {}; init => pub I; index => pub X; local => pub L {}; thread => pub T {}");
    let x = proc_macro(&t).unwrap();
    assert_eq!(ident_at(&t, x.input.thr.ident), "T");
    assert_eq!(ident_at(&t, x.input.init.ident), "I");
    assert!(x.input.threads.is_empty());
}

#[test]
fn clint_unknown_section_is_passed_over() {
    let t = lex(&format!("bogus => ; {} threads => {{}}", SECTIONS));
    assert!(proc_macro(&t).is_ok());
}

#[test]
fn clint_missing_sections() {
    let t = lex("thread => pub T {}; local => pub L {}; index => pub X; init => pub I;");
    assert_eq!(error_of(&t), ParseError {
        kind: ErrorKind::Missing(Section::Threads),
        at: t.len(),
    });
    let t = lex("");
    assert_eq!(error_of(&t), ParseError { kind: ErrorKind::Missing(Section::Thread), at: 0 });
    let t = lex("thread => pub T {}; threads => {}");
    assert_eq!(error_of(&t).kind, ErrorKind::Missing(Section::Local));
}

#[test]
fn clint_duplicate_section() {
    let t = lex(&format!("{} index => pub Y; threads => {{}}", SECTIONS));
    let e = error_of(&t);
    assert_eq!(e.kind, ErrorKind::Multiple(Section::Index));
    assert_eq!(ident_at(&t, e.at), "pub");
}

#[test]
fn clint_duplicate_exception_and_timer() {
    let t = input("exception => pub a; exception => pub b");
    let e = error_of(&t);
    assert_eq!(e.kind, ErrorKind::MultipleException);
    assert_eq!(e.at, t.len() - 2);
    let t = input("timer => pub a; timer => pub b;");
    assert_eq!(error_of(&t).kind, ErrorKind::MultipleTimer);
}

#[test]
fn clint_unknown_thread_kind() {
    let t = input("idle => pub a");
    match error_of(&t).kind {
        ErrorKind::UnexpectedIdent(i) => assert_eq!(ident_at(&t, i), "idle"),
        other => panic!("{:?}", other),
    }
}

#[test]
fn clint_threads_with_attributes_are_not_a_section() {
    let t = lex(&format!("{} #[a] threads => {{}}", SECTIONS));
    assert_eq!(error_of(&t).kind, ErrorKind::Expected(Expected::Semi));
}

#[test]
fn clint_separators_are_semicolons() {
    let t = input("exception => pub a, timer => pub b");
    assert_eq!(error_of(&t).kind, ErrorKind::Expected(Expected::Semi));
}

#[test]
fn clint_leftover_in_visibility() {
    let t = input("exception => pub(in a b) e");
    let e = error_of(&t);
    assert_eq!(e.kind, ErrorKind::UnexpectedToken);
    assert_eq!(ident_at(&t, e.at), "b");
}

#[test]
fn clint_tables_agree_on_sources() {
    let t = input("external => { 2: pub a; 5: pub b; 2: pub c }; software => { pub d }");
    let x = proc_macro(&t).unwrap();
    assert_eq!(x.init.external, vec![0, 3, 0, 0, 2]);
    for (k, &h) in x.init.external.iter().enumerate() {
        if h != 0 {
            assert!(x.plic.contains(&(h - 1, (k + 1) as u32)));
        }
    }
    assert_eq!(x.plic, vec![(0, 2), (1, 5), (2, 2)]);
}

fn copy_token(t: &Token) -> Token {
    match t {
        Token::Ident(s) => Token::Ident(s.clone()),
        Token::Punct(c, sp) => Token::Punct(
            *c,
            match sp {
                Spacing::Alone => Spacing::Alone,
                Spacing::Joint => Spacing::Joint,
            },
        ),
        Token::Literal(s) => Token::Literal(s.clone()),
        Token::Open(d) => Token::Open(copy_delimiter(d)),
        Token::Close(d) => Token::Close(copy_delimiter(d)),
    }
}

fn copy_delimiter(d: &Delimiter) -> Delimiter {
    match d {
        Delimiter::Parenthesis => Delimiter::Parenthesis,
        Delimiter::Brace => Delimiter::Brace,
        Delimiter::Bracket => Delimiter::Bracket,
    }
}

fn joined(secs: &[Vec<Token>], order: &[usize]) -> (Vec<Token>, Vec<usize>) {
    let mut out = Vec::new();
    let mut starts = vec![0; secs.len()];
    for (n, &k) in order.iter().enumerate() {
        if n > 0 {
            out.push(Token::Punct(';', Spacing::Alone));
        }
        starts[k] = out.len();
        for tok in &secs[k] {
            out.push(copy_token(tok));
        }
    }
    (out, starts)
}

fn moved_back(x: &Input, starts: &[usize]) -> Vec<usize> {
    let b = |v: usize, k: usize| v - starts[k];
    let mut r = vec![
        b(x.thr.attrs.start, 0),
        b(x.thr.attrs.end, 0),
        b(x.thr.vis.span.start, 0),
        b(x.thr.vis.span.end, 0),
        b(x.thr.ident, 0),
        b(x.thr.tokens.start, 0),
        b(x.thr.tokens.end, 0),
        b(x.local.vis.span.end, 1),
        b(x.local.ident, 1),
        b(x.local.tokens.end, 1),
        b(x.index.attrs.start, 2),
        b(x.index.vis.span.end, 2),
        b(x.index.ident, 2),
        b(x.init.vis.span.start, 3),
        b(x.init.ident, 3),
    ];
    for th in &x.threads {
        let s = match th {
            Thread::Exception(s) | Thread::Timer(s) | Thread::Software(s) => s,
            Thread::External(n, s) => {
                r.push(*n as usize);
                s
            }
        };
        r.push(b(s.ident, 4));
        r.push(b(s.vis.span.end, 4));
    }
    r
}

#[test]
fn clint_same_sections_in_two_orders_read_alike() {
    let secs: Vec<Vec<Token>> = [
        "#[doc = \"t\"] thread => pub(crate) Pool { a: u8 }",
        "local => Local {}",
        "#[cfg(x)] index => pub Thrs",
        "init => crate Init",
        "threads => { timer => pub tick; external => { 2: pub rx; 5: pub tx } }",
    ]
    .iter()
    .map(|s| lex(s))
    .collect();
    let (a, sa) = joined(&secs, &[0, 1, 2, 3, 4]);
    let (mut b, sb) = joined(&secs, &[4, 2, 0, 3, 1]);
    b.push(Token::Punct(';', Spacing::Alone));
    let x = parse(&a).unwrap();
    let y = parse(&b).unwrap();
    assert_ne!(sa, sb);
    assert_eq!(x.threads.len(), 3);
    assert_eq!(moved_back(&x, &sa), moved_back(&y, &sb));
    assert_eq!(ident_at(&a, x.thr.ident), "Pool");
    assert_eq!(ident_at(&b, y.thr.ident), "Pool");
    assert_eq!(ident_at(&b, y.index.ident), "Thrs");
}

#[test]
fn clint_same_sections_in_two_orders_refused_alike() {
    let secs: Vec<Vec<Token>> = [
        "thread => pub T {}",
        "local => pub(in a b) L {}",
        "index => pub X",
        "init => pub I",
        "threads => {}",
    ]
    .iter()
    .map(|s| lex(s))
    .collect();
    let (a, _) = joined(&secs, &[0, 1, 2, 3, 4]);
    let (b, _) = joined(&secs, &[3, 1, 4, 0, 2]);
    assert!(parse(&a).is_err());
    assert!(parse(&b).is_err());
}
