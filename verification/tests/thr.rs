use drone_riscv::syntax::{attrs, eq_str, expr_path, keyword, mod_path, vis, Vis};
use drone_riscv::thr::{proc_macro, Handler, Thread, ThreadKind};
use drone_riscv::token::{Delimiter, ErrorKind, Expected, ParseError, Section, Spacing, Span, Token};
use proc_macro2::{TokenStream, TokenTree};

fn flatten(stream: TokenStream, out: &mut Vec<Token>) {
    for tt in stream {
        match tt {
            TokenTree::Group(g) => {
                let d = match g.delimiter() {
                    proc_macro2::Delimiter::Parenthesis => Some(Delimiter::Parenthesis),
                    proc_macro2::Delimiter::Brace => Some(Delimiter::Brace),
                    proc_macro2::Delimiter::Bracket => Some(Delimiter::Bracket),
                    proc_macro2::Delimiter::None => None,
                };
                if let Some(d) = d {
                    out.push(Token::Open(d));
                    flatten(g.stream(), out);
                    out.push(Token::Close(d));
                } else {
                    flatten(g.stream(), out);
                }
            }
            TokenTree::Ident(i) => out.push(Token::Ident(i.to_string())),
            TokenTree::Punct(p) => out.push(Token::Punct(
                p.as_char(),
                match p.spacing() {
                    proc_macro2::Spacing::Joint => Spacing::Joint,
                    proc_macro2::Spacing::Alone => Spacing::Alone,
                },
            )),
            TokenTree::Literal(l) => out.push(Token::Literal(l.to_string())),
        }
    }
}

fn lex(s: &str) -> Vec<Token> {
    let mut out = Vec::new();
    flatten(s.parse::<TokenStream>().unwrap(), &mut out);
    out
}

fn ident_at(t: &[Token], i: usize) -> String {
    match &t[i] {
        Token::Ident(s) => s.clone(),
        _ => panic!("no identifier at {}", i),
    }
}

const HEADER: &str = "thread => pub Thr { a: u8 }; local => pub ThrLocal {}; \
                      index => pub Thrs; init => pub ThrsInit;";

fn input(threads: &str) -> Vec<Token> {
    lex(&format!("{} threads => {{ {} }};", HEADER, threads))
}

fn kind_of(th: &Thread) -> String {
    let s = match th {
        Thread::Exception(s) | Thread::Timer(s) | Thread::External(_, s) | Thread::Software(s) => s,
    };
    match s.kind {
        ThreadKind::Inner => "inner".into(),
        ThreadKind::Outer(_) => "outer".into(),
        ThreadKind::Naked(_) => "naked".into(),
    }
}

// --- syntax pieces ---------------------------------------------------------

#[test]
fn eq_str_compares_characters() {
    assert!(eq_str("thread", "thread"));
    assert!(!eq_str("thread", "threads"));
    assert!(!eq_str("Thread", "thread"));
    assert!(eq_str("", ""));
    assert!(eq_str("ü", "ü"));
}

#[test]
fn keywords() {
    assert!(keyword("pub"));
    assert!(keyword("crate"));
    assert!(keyword("_"));
    assert!(keyword("Self"));
    assert!(!keyword("thread"));
    assert!(!keyword("r#fn"));
}

#[test]
fn attributes_are_read() {
    let t = lex("#[doc = \"x\"] #[cfg(a)] name");
    assert_eq!(attrs(&t, 0, t.len()), Ok(t.len() - 1));
    let t = lex("name");
    assert_eq!(attrs(&t, 0, t.len()), Ok(0));
}

#[test]
fn attribute_needs_brackets_and_path() {
    let t = lex("#(a) x");
    assert_eq!(
        attrs(&t, 0, t.len()),
        Err(ParseError { kind: ErrorKind::Expected(Expected::Brackets), at: 1 })
    );
    let t = lex("#[= 1] x");
    assert_eq!(
        attrs(&t, 0, t.len()),
        Err(ParseError { kind: ErrorKind::Expected(Expected::Path), at: 2 })
    );
    let t = lex("#[a::] x");
    assert_eq!(
        attrs(&t, 0, t.len()),
        Err(ParseError { kind: ErrorKind::Expected(Expected::PathSegment), at: 5 })
    );
}

#[test]
fn visibilities() {
    let t = lex("pub x");
    assert_eq!(vis(&t, 0, t.len()), Ok((Vis { span: Span { start: 0, end: 1 }, leftover: None }, 1)));
    let t = lex("pub(crate) x");
    assert_eq!(vis(&t, 0, t.len()), Ok((Vis { span: Span { start: 0, end: 4 }, leftover: None }, 4)));
    let t = lex("pub(in a::b) x");
    assert_eq!(vis(&t, 0, t.len()), Ok((Vis { span: Span { start: 0, end: 8 }, leftover: None }, 8)));
    let t = lex("pub(in a b) x");
    assert_eq!(
        vis(&t, 0, t.len()),
        Ok((Vis { span: Span { start: 0, end: 6 }, leftover: Some(4) }, 6))
    );
    let t = lex("pub(crate b) x");
    assert_eq!(vis(&t, 0, t.len()), Ok((Vis { span: Span { start: 0, end: 1 }, leftover: None }, 1)));
    let t = lex("crate x");
    assert_eq!(vis(&t, 0, t.len()), Ok((Vis { span: Span { start: 0, end: 1 }, leftover: None }, 1)));
    let t = lex("crate::x");
    assert_eq!(vis(&t, 0, t.len()), Ok((Vis { span: Span { start: 0, end: 0 }, leftover: None }, 0)));
    let t = lex("x");
    assert_eq!(vis(&t, 0, t.len()), Ok((Vis { span: Span { start: 0, end: 0 }, leftover: None }, 0)));
}

#[test]
fn module_paths() {
    let t = lex("::a::b c");
    assert_eq!(mod_path(&t, 0, t.len()), Ok(6));
    let t = lex("self::super::crate");
    assert_eq!(mod_path(&t, 0, t.len()), Ok(7));
    let t = lex("fn");
    assert_eq!(
        mod_path(&t, 0, t.len()),
        Err(ParseError { kind: ErrorKind::Expected(Expected::Path), at: 0 })
    );
}

#[test]
fn handler_paths() {
    let t = lex("crate::handlers::tick");
    assert_eq!(expr_path(&t, 0, t.len()), Ok(t.len()));
    let t = lex("a::b::(x)");
    assert_eq!(expr_path(&t, 0, t.len()), Ok(4));
    let t = lex("fault::<Board>");
    assert_eq!(expr_path(&t, 0, t.len()), Ok(t.len()));
    let t = lex("a::<Vec<u8>, fn() -> u8>::b x");
    assert_eq!(expr_path(&t, 0, t.len()), Ok(t.len() - 1));
    let t = lex("<T as Tr>::f");
    assert_eq!(expr_path(&t, 0, t.len()), Ok(t.len()));
    let t = lex("<Vec<u8>>::new::(x)");
    assert_eq!(
        expr_path(&t, 0, t.len()),
        Err(ParseError { kind: ErrorKind::Expected(Expected::Ident), at: 11 })
    );
    let t = lex("<T as Tr> f");
    assert_eq!(
        expr_path(&t, 0, t.len()),
        Err(ParseError { kind: ErrorKind::Expected(Expected::Colon2), at: 5 })
    );
    let t = lex("a::<u8");
    assert_eq!(
        expr_path(&t, 0, t.len()),
        Err(ParseError { kind: ErrorKind::Expected(Expected::Gt), at: t.len() })
    );
    let t = lex("self::<u8>");
    assert_eq!(
        expr_path(&t, 0, t.len()),
        Err(ParseError { kind: ErrorKind::Expected(Expected::Ident), at: 3 })
    );
    let t = lex("fn");
    assert_eq!(
        expr_path(&t, 0, t.len()),
        Err(ParseError { kind: ErrorKind::Expected(Expected::Ident), at: 0 })
    );
}

// --- the whole input ---------------------------------------------------------

const THREADS: &str = "exception => pub hard_fault, \
     timer => pub outer(handlers::tick) SysTick, \
     external => { 3: pub uart_rx, #[doc = \"x\"] 1: pub naked(irq::gpio) gpio, }, \
     software => { pub worker },";

#[test]
fn parses_sections_and_threads() {
    let t = input(THREADS);
    let x = proc_macro(&t).unwrap();
    assert_eq!(ident_at(&t, x.input.thr.ident), "Thr");
    assert_eq!(ident_at(&t, x.input.local.ident), "ThrLocal");
    assert_eq!(ident_at(&t, x.input.index.ident), "Thrs");
    assert_eq!(ident_at(&t, x.input.init.ident), "ThrsInit");
    // `{ a: u8 }`: the braces' content is three tokens.
    let b = x.input.thr.tokens;
    assert_eq!(b.end - b.start, 3);
    let ths = &x.input.threads;
    assert_eq!(ths.len(), 5);
    assert!(matches!(ths[0], Thread::Exception(_)));
    assert!(matches!(ths[1], Thread::Timer(_)));
    assert!(matches!(ths[2], Thread::External(3, _)));
    assert!(matches!(ths[3], Thread::External(1, _)));
    assert!(matches!(ths[4], Thread::Software(_)));
    let kinds: Vec<String> = ths.iter().map(kind_of).collect();
    assert_eq!(kinds, vec!["inner", "outer", "inner", "naked", "inner"]);
}

#[test]
fn numbers_skip_naked_threads() {
    let t = input(THREADS);
    let x = proc_macro(&t).unwrap();
    assert_eq!(x.nums, vec![Some(0), Some(1), Some(2), None, Some(3)]);
    assert_eq!(x.array, vec![0, 0, 1, 2, 3]);
}

#[test]
fn index_fields_are_named_by_case() {
    let t = input(THREADS);
    let x = proc_macro(&t).unwrap();
    let names: Vec<(usize, usize, String, String)> = x
        .index
        .iter()
        .map(|e| (e.thread, e.num, e.field.clone(), e.token_type.clone()))
        .collect();
    assert_eq!(
        names,
        vec![
            (0, 0, "hard_fault".to_string(), "HardFault".to_string()),
            (1, 1, "sys_tick".to_string(), "SysTick".to_string()),
            (2, 2, "uart_rx".to_string(), "UartRx".to_string()),
            (4, 3, "worker".to_string(), "Worker".to_string()),
        ]
    );
}

#[test]
fn interrupt_table() {
    let t = input(THREADS);
    let x = proc_macro(&t).unwrap();
    assert_eq!(x.init.exception, Some(Handler::Inner(0)));
    let tick = match x.init.timer {
        Some(Handler::Outer(1, path)) => path,
        other => panic!("{:?}", other),
    };
    assert_eq!(ident_at(&t, tick.start), "handlers");
    assert_eq!(tick.end - tick.start, 4);
    assert_eq!(x.init.external.len(), 3);
    assert!(matches!(x.init.external[0], Some(Handler::Naked(_))));
    assert_eq!(x.init.external[1], None);
    assert_eq!(x.init.external[2], Some(Handler::Inner(2)));
    assert_eq!(x.init.handlers.len(), 4);
}

#[test]
fn last_thread_of_a_source_wins() {
    let t = input("external => { 2: pub a, 2: pub b }, exception => pub e1, exception => pub e2");
    let x = proc_macro(&t).unwrap();
    assert_eq!(x.init.external, vec![None, Some(Handler::Inner(1))]);
    assert_eq!(x.init.exception, Some(Handler::Inner(3)));
    assert_eq!(x.init.timer, None);
}

#[test]
fn empty_threads() {
    let t = input("");
    let x = proc_macro(&t).unwrap();
    assert!(x.input.threads.is_empty());
    assert_eq!(x.array, vec![0]);
    assert!(x.init.external.is_empty());
}

#[test]
fn trailing_semicolon_is_optional() {
    let t = lex(&format!("{} threads => {{}}", HEADER));
    assert!(proc_macro(&t).is_ok());
}

// --- errors ------------------------------------------------------------------

fn error_of(t: &Vec<Token>) -> ParseError {
    match proc_macro(t) {
        Err(e) => e,
        Ok(_) => panic!("parsed"),
    }
}

#[test]
fn wrong_section_word() {
    let t = lex("thraed => pub Thr {};");
    assert_eq!(error_of(&t), ParseError {
        kind: ErrorKind::Expected(Expected::Keyword(Section::Thread)),
        at: 1,
    });
}

#[test]
fn missing_semicolon() {
    let t = lex("thread => pub Thr {} local => pub L {};");
    assert_eq!(error_of(&t), ParseError { kind: ErrorKind::Expected(Expected::Semi), at: 7 });
}

#[test]
fn missing_arrow() {
    let t = lex("thread = pub Thr {};");
    assert_eq!(error_of(&t), ParseError { kind: ErrorKind::Expected(Expected::FatArrow), at: 1 });
}

#[test]
fn missing_braces() {
    let t = lex("thread => pub Thr;");
    assert_eq!(error_of(&t), ParseError { kind: ErrorKind::Expected(Expected::Braces), at: 5 });
}

#[test]
fn keyword_as_name() {
    let t = lex("thread => pub fn {};");
    assert_eq!(error_of(&t), ParseError { kind: ErrorKind::Expected(Expected::Ident), at: 4 });
}

#[test]
fn unknown_kind_of_thread() {
    let t = input("interrupt => pub a");
    let e = error_of(&t);
    match e.kind {
        ErrorKind::UnexpectedIdent(i) => assert_eq!(ident_at(&t, i), "interrupt"),
        other => panic!("{:?}", other),
    }
    assert_eq!(ident_at(&t, e.at), "pub");
}

#[test]
fn external_with_attributes_is_unexpected() {
    let t = input("#[a] external => { 1: pub x }");
    assert!(matches!(error_of(&t).kind, ErrorKind::UnexpectedIdent(_)));
}

#[test]
fn external_number_must_be_integer() {
    let t = input("external => { x: pub a }");
    assert_eq!(error_of(&t).kind, ErrorKind::Expected(Expected::IntLiteral));
    let t = input("external => { 4294967296: pub a }");
    assert_eq!(error_of(&t).kind, ErrorKind::IntTooLarge);
    let t = input("external => { 1 pub a }");
    assert_eq!(error_of(&t).kind, ErrorKind::Expected(Expected::Colon));
}

#[test]
fn threads_need_commas() {
    let t = input("exception => pub a timer => pub b");
    assert_eq!(error_of(&t).kind, ErrorKind::Expected(Expected::Comma));
}

#[test]
fn leftover_in_handler_path() {
    let t = input("exception => pub outer(a b) e");
    let e = error_of(&t);
    assert_eq!(e.kind, ErrorKind::UnexpectedToken);
    assert_eq!(ident_at(&t, e.at), "b");
}

#[test]
fn leftover_comes_after_other_errors() {
    let t = input("exception => pub outer(a b) e, bogus => x");
    assert!(matches!(error_of(&t).kind, ErrorKind::UnexpectedIdent(_)));
}

#[test]
fn tokens_after_the_input() {
    let t = lex(&format!("{} threads => {{}}; extra", HEADER));
    let e = error_of(&t);
    assert_eq!(e.kind, ErrorKind::UnexpectedToken);
    assert_eq!(ident_at(&t, e.at), "extra");
}

#[test]
fn unbalanced_group() {
    let mut t = lex("thread => pub Thr {};");
    t.remove(6);
    assert_eq!(error_of(&t), ParseError { kind: ErrorKind::Unbalanced, at: 5 });
}

#[test]
fn array_entries_follow_index_numbers() {
    let t = input(THREADS);
    let x = proc_macro(&t).unwrap();
    assert_eq!(x.array.len(), x.index.len() + 1);
    for (k, entry) in x.index.iter().enumerate() {
        assert_eq!(x.array[k + 1], entry.num);
    }
}

#[test]
fn generic_and_qualified_handler_paths() {
    let t = input("exception => pub naked(fault::<Board>) e, timer => pub outer(<Tick as Run>::run) tick");
    let x = proc_macro(&t).unwrap();
    match x.init.exception {
        Some(Handler::Naked(path)) => assert_eq!(path.end - path.start, 6),
        other => panic!("{:?}", other),
    }
    match x.init.timer {
        Some(Handler::Outer(0, path)) => assert_eq!(path.end - path.start, 8),
        other => panic!("{:?}", other),
    }
}

#[test]
fn negative_external_number() {
    let t = input("external => { -3: pub uart }");
    let e = error_of(&t);
    assert_eq!(e.kind, ErrorKind::InvalidDigit);
    assert!(matches!(t[e.at], Token::Punct('-', _)));
    let t = input("external => { -1.5: pub uart }");
    assert_eq!(error_of(&t).kind, ErrorKind::Expected(Expected::IntLiteral));
    let t = input("external => { -x: pub uart }");
    assert_eq!(error_of(&t).kind, ErrorKind::Expected(Expected::IntLiteral));
}
