use lualex::{ChunkSource, LexNumberValue, LexStatus, LexToken, NoMoreInput};

fn as_float(v: &LexNumberValue) -> f64 {
    let digits = v.frac_digits();
    let mut num = v.as_int() as f64;
    let mut den = 1f64;
    for d in digits.iter() {
        num = num * 10f64 + f64::from(*d);
        den = den * 10f64;
    }
    num / den
}

fn scan_all(s: &str) -> Vec<Option<LexToken>> {
    let mut lex = LexStatus::new(s);
    lex.setup();
    let mut out = Vec::new();
    loop {
        let t = lex.scan();
        let stop = t.is_none() || t == Some(LexToken::Eof);
        out.push(t);
        if stop {
            return out;
        }
    }
}

fn name(s: &str) -> LexToken {
    LexToken::Name(String::from(s))
}

fn string(s: &str) -> LexToken {
    LexToken::Str(String::from(s))
}

#[test]
fn lex_scan_dec_number() {
    let mut lex = LexStatus::new("1123");
    lex.setup();

    let token = lex.scan();
    assert!(token.is_some());
    if let Some(LexToken::Number(x)) = token {
        assert_eq!(x.as_int(), 1123);
    }
}

#[test]
fn lex_scan_hex_number() {
    let mut lex = LexStatus::new("0x1123");
    lex.setup();

    let token = lex.scan();
    assert!(token.is_some());
    if let Some(LexToken::Number(x)) = token {
        assert_eq!(x.as_int(), 0x1123);
    }
}

#[test]
fn lex_scan_bin_number() {
    let mut lex = LexStatus::new("0b0001000100100011");
    lex.setup();

    let token = lex.scan();
    assert!(token.is_some());
    if let Some(LexToken::Number(x)) = token {
        assert_eq!(x.as_int(), 0x1123);
    }
}

#[test]
fn lex_scan_float_number_1() {
    let mut lex = LexStatus::new(".51");
    lex.setup();

    let token = lex.scan();
    assert!(token.is_some());
    if let Some(LexToken::Number(x)) = token {
        assert_eq!(as_float(&x), 0.51f64);
    }
}

#[test]
fn lex_scan_float_number_2() {
    let mut lex = LexStatus::new("1123.51");
    lex.setup();

    let token = lex.scan();
    assert!(token.is_some());
    if let Some(LexToken::Number(x)) = token {
        assert_eq!(as_float(&x), 1123.51f64);
    }
}

fn assert_name(s: &str) -> LexToken {
    let mut lex = LexStatus::new(s);
    lex.setup();
    let token = lex.scan();

    assert!(token.is_some());
    if let Some(x) = token {
        x
    } else {
        LexToken::Eof
    }
}

#[test]
fn lex_scan_keyword() {
    assert!(assert_name("and") == LexToken::And);
    assert!(assert_name("break") == LexToken::Break);
    assert!(assert_name("do") == LexToken::Do);
    assert!(assert_name("else") == LexToken::Else);
    assert!(assert_name("elseif") == LexToken::ElseIf);
    assert!(assert_name("end") == LexToken::End);
    assert!(assert_name("false") == LexToken::False);
    assert!(assert_name("for") == LexToken::For);
    assert!(assert_name("function") == LexToken::Function);
    assert!(assert_name("goto") == LexToken::Goto);
    assert!(assert_name("if") == LexToken::If);
    assert!(assert_name("in") == LexToken::In);
    assert!(assert_name("local") == LexToken::Local);
    assert!(assert_name("nil") == LexToken::Nil);
    assert!(assert_name("not") == LexToken::Not);
    assert!(assert_name("or") == LexToken::Or);
    assert!(assert_name("repeat") == LexToken::Repeat);
    assert!(assert_name("return") == LexToken::Return);
    assert!(assert_name("then") == LexToken::Then);
    assert!(assert_name("true") == LexToken::True);
    assert!(assert_name("util") == LexToken::Util);
    assert!(assert_name("while") == LexToken::While);
}

#[test]
fn lex_scan_operator() {
    assert!(assert_name("+") == LexToken::Add);
    assert!(assert_name("-") == LexToken::Sub);
    assert!(assert_name("*") == LexToken::Mul);
    assert!(assert_name("/") == LexToken::Div);
    assert!(assert_name("%") == LexToken::Mod)
}

#[test]
fn scan_keywords_are_case_sensitive() {
    assert!(assert_name("andx") == name("andx"));
    assert!(assert_name("And") == name("And"));
    assert!(assert_name("WHILE") == name("WHILE"));
    assert!(assert_name("_while") == name("_while"));
}

#[test]
fn scan_two_char_operators() {
    let toks = scan_all("= == < <= > >= ~= : :: . .. ... [");
    let expect = vec![
        LexToken::Assign,
        LexToken::Equal,
        LexToken::Less,
        LexToken::LessEqual,
        LexToken::Greate,
        LexToken::GreateEqual,
        LexToken::NotEqual,
        LexToken::MethodCall,
        LexToken::Label,
        LexToken::Dot,
        LexToken::Concat,
        LexToken::Dots,
        LexToken::SquareBracketLeft,
        LexToken::Eof,
    ];
    assert_eq!(toks.len(), expect.len());
    for (t, e) in toks.iter().zip(expect.iter()) {
        assert!(t.as_ref() == Some(e));
    }
}

#[test]
fn scan_operators_advance() {
    let toks = scan_all("a+b*2");
    assert!(toks[0] == Some(name("a")));
    assert!(toks[1] == Some(LexToken::Add));
    assert!(toks[2] == Some(name("b")));
    assert!(toks[3] == Some(LexToken::Mul));
    assert!(toks[4] == Some(LexToken::Number(LexNumberValue::UInt(2))));
    assert!(toks[5] == Some(LexToken::Eof));
}

#[test]
fn scan_quoted_strings_and_escapes() {
    assert!(assert_name("\"abc\"") == string("abc"));
    assert!(assert_name("'a\\nb\\tc\\rd'") == string("a\nb\tc\rd"));
    assert!(assert_name("'say \"hi\"'") == string("say \"hi\""));
    assert!(assert_name("''") == string(""));
}

#[test]
fn scan_escape_round_trip() {
    let text = "x\ny\tz\r";
    let mut escaped = String::from("\"");
    for c in text.chars() {
        match c {
            '\n' => escaped.push_str("\\n"),
            '\r' => escaped.push_str("\\r"),
            '\t' => escaped.push_str("\\t"),
            other => escaped.push(other),
        }
    }
    escaped.push('"');
    assert!(assert_name(&escaped) == string(text));
}

#[test]
fn scan_string_errors() {
    let mut lex = LexStatus::new("\"abc");
    lex.setup();
    assert!(lex.scan().is_none());
    let mut lex = LexStatus::new("\"a\\qb\"");
    lex.setup();
    assert!(lex.scan().is_none());
    let mut lex = LexStatus::new("\"a\nb\"");
    lex.setup();
    assert!(lex.scan().is_none());
}

#[test]
fn scan_long_strings() {
    assert!(assert_name("[[abc]]") == string("abc"));
    assert!(assert_name("[==[a]]b]==]") == string("a]]b"));
    assert!(assert_name("[[\nline1\r\nline2]]") == string("line1\nline2"));
    assert!(assert_name("[=[x]]=]") == string("x]"));
}

#[test]
fn scan_long_string_errors() {
    let mut lex = LexStatus::new("[[abc");
    lex.setup();
    assert!(lex.scan().is_none());
    let mut lex = LexStatus::new("[=x");
    lex.setup();
    assert!(lex.scan().is_none());
}

#[test]
fn scan_bad_characters() {
    let mut lex = LexStatus::new("~");
    lex.setup();
    assert!(lex.scan().is_none());
    let mut lex = LexStatus::new("@");
    lex.setup();
    assert!(lex.scan().is_none());
    let mut lex = LexStatus::new("1a34");
    lex.setup();
    assert!(lex.scan().is_none());
}

#[test]
fn scan_comments_and_lines() {
    let mut lex = LexStatus::new("-- note\nx --[==[ long\n comment ]==] y\r\n\n- z");
    lex.setup();
    assert!(lex.scan() == Some(name("x")));
    assert_eq!(lex.current_line(), 1);
    assert!(lex.scan() == Some(name("y")));
    assert!(lex.scan() == Some(LexToken::Sub));
    assert_eq!(lex.current_line(), 4);
    assert!(lex.scan() == Some(name("z")));
    assert!(lex.scan() == Some(LexToken::Eof));
}

#[test]
fn scan_unterminated_long_comment() {
    let mut lex = LexStatus::new("--[[ never closed");
    lex.setup();
    assert!(lex.scan().is_none());
}

#[test]
fn scan_eof_repeats() {
    let mut lex = LexStatus::new("x");
    lex.setup();
    assert!(lex.scan() == Some(name("x")));
    for _ in 0..5 {
        assert!(lex.scan() == Some(LexToken::Eof));
    }
}

#[test]
fn skip_eq_levels() {
    let mut lex = LexStatus::new("[==[");
    lex.setup();
    assert_eq!(lex.skip_eq(), 2);
    let mut lex = LexStatus::new("[==x");
    lex.setup();
    assert_eq!(lex.skip_eq(), -3);
    let mut lex = LexStatus::new("[x");
    lex.setup();
    assert_eq!(lex.skip_eq(), -1);
}

struct Chunks {
    parts: Vec<Vec<char>>,
}

impl ChunkSource for Chunks {
    fn next_chunk(&mut self) -> Option<Vec<char>> {
        if self.parts.is_empty() {
            None
        } else {
            Some(self.parts.remove(0))
        }
    }
}

#[test]
fn scan_across_chunks() {
    let more = Chunks { parts: vec![vec!['c', 'd', ' ', '1'], vec!['2', '.', '5']] };
    let mut lex = LexStatus::with_source("ab", more);
    lex.setup();
    assert!(lex.scan() == Some(name("abcd")));
    match lex.scan() {
        Some(LexToken::Number(v)) => {
            assert_eq!(v.as_int(), 12);
            assert_eq!(v.frac_digits(), vec![5u8]);
        }
        _ => panic!("expected a number"),
    }
    assert!(lex.scan() == Some(LexToken::Eof));
}

#[test]
fn no_more_input_source() {
    let mut src = NoMoreInput;
    assert!(src.next_chunk().is_none());
}

#[test]
fn scan_raw_tab_in_quoted_string() {
    assert!(assert_name("\"a\tb\"") == string("a\tb"));
}

#[test]
fn scan_long_string_ends_at_first_closer() {
    let mut lex = LexStatus::new("[[a]]b]]");
    lex.setup();
    assert!(lex.scan() == Some(string("a")));
    assert!(lex.scan() == Some(name("b")));
}

#[test]
fn scan_char_beyond_latin1_is_an_error() {
    let mut lex = LexStatus::new("\u{4e2d}");
    lex.setup();
    assert!(lex.scan().is_none());
    let mut lex = LexStatus::new("\u{e9}t\u{e9}");
    lex.setup();
    assert!(lex.scan() == Some(name("\u{e9}t\u{e9}")));
}

#[test]
fn scan_empty_source_gives_eof() {
    let mut lex = LexStatus::new("");
    lex.setup();
    for _ in 0..3 {
        assert!(lex.scan() == Some(LexToken::Eof));
    }
}

#[test]
fn name_looks_up_saved_text() {
    let mut lex = LexStatus::new("and");
    lex.setup();
    lex.save_next();
    lex.save_next();
    lex.save_next();
    assert!(lex.name() == LexToken::And);
    let mut lex = LexStatus::new("Andy");
    lex.setup();
    for _ in 0..4 {
        lex.save_next();
    }
    assert!(lex.name() == name("Andy"));
}

#[test]
fn scan_after_blanks_and_comments() {
    let mut lex = LexStatus::new("  -- note\n\t--[==[ x\r\n]] y ]==]+");
    lex.setup();
    assert!(lex.scan() == Some(LexToken::Add));
    assert_eq!(lex.current_line(), 2);
    let mut lex = LexStatus::new(" \r\n\n\r  ~=");
    lex.setup();
    assert!(lex.scan() == Some(LexToken::NotEqual));
    assert_eq!(lex.current_line(), 2);
}

#[test]
fn long_string_counts_lines() {
    let mut lex = LexStatus::new("[=[\r\nab\n\rc\r\nd]=]");
    lex.setup();
    assert!(lex.scan() == Some(string("ab\nc\nd")));
    assert_eq!(lex.current_line(), 3);
}
