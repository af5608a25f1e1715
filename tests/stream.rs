use lualex::{ChunkSource, LexState, LexToken};
use std::cell::Cell;
use std::rc::Rc;

struct Counting {
    calls: Rc<Cell<u32>>,
    parts: Vec<Vec<char>>,
}

impl ChunkSource for Counting {
    fn next_chunk(&mut self) -> Option<Vec<char>> {
        self.calls.set(self.calls.get() + 1);
        if self.parts.is_empty() {
            None
        } else {
            Some(self.parts.remove(0))
        }
    }
}

#[test]
fn peek_twice_scans_once() {
    let calls = Rc::new(Cell::new(0));
    let more = Counting { calls: calls.clone(), parts: vec![vec!['b', 'c']] };
    let mut lex = LexState::with_source("a", more);
    let first = lex.peek().clone();
    let after_first = calls.get();
    assert_eq!(after_first, 2);
    let second = lex.peek().clone();
    assert_eq!(calls.get(), after_first);
    assert!(first == second);
    assert!(first == Some(LexToken::Name(String::from("abc"))));
    assert!(lex.advance());
    assert!(*lex.token() == Some(LexToken::Name(String::from("abc"))));
    assert_eq!(calls.get(), after_first);
}

#[test]
fn advance_after_eof_keeps_eof() {
    let mut lex = LexState::new("x");
    assert!(lex.advance());
    assert!(*lex.token() == Some(LexToken::Name(String::from("x"))));
    for _ in 0..4 {
        assert!(lex.advance());
        assert!(*lex.token() == Some(LexToken::Eof));
    }
}

#[test]
fn lines_are_tracked() {
    let mut lex = LexState::new("a\nb\n\nc");
    assert!(lex.advance());
    assert_eq!(lex.last_line(), 0);
    assert!(lex.advance());
    assert_eq!(lex.last_line(), 0);
    assert_eq!(lex.current_line(), 1);
    assert!(lex.advance());
    assert_eq!(lex.last_line(), 1);
    assert_eq!(lex.current_line(), 3);
}

#[test]
fn peek_then_advance_yields_previewed_token() {
    let mut lex = LexState::new("x = 1");
    assert!(lex.advance());
    let p = lex.peek().clone();
    assert!(p == Some(LexToken::Assign));
    assert!(lex.advance());
    assert!(*lex.token() == p);
    assert!(lex.advance());
    assert!(matches!(lex.token(), Some(LexToken::Number(_))));
}

#[test]
fn advance_reports_errors() {
    let mut lex = LexState::new("~");
    assert!(!lex.advance());
    assert!(lex.token().is_none());
}

#[test]
fn char_level_access() {
    let mut lex = LexState::new("12+");
    assert_eq!(lex.save_next(), Some('2'));
    assert_eq!(lex.next(), Some('+'));
    let mut lex = LexState::new("0x1f;");
    match lex.scan_num() {
        Some(LexToken::Number(v)) => assert_eq!(v.as_int(), 0x1f),
        _ => panic!("expected a number"),
    }
}
