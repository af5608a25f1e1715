use vstd::prelude::*;

pub use super::number::LexNumberValue;

verus! {

/// A lexical token.
pub enum LexToken {
    Add,
    And,
    Assign,
    Break,
    Concat,
    Div,
    Do,
    Dot,
    Dots,
    Else,
    ElseIf,
    End,
    Eof,
    Equal,
    False,
    For,
    Function,
    Goto,
    Greate,
    GreateEqual,
    If,
    In,
    Label,
    Less,
    LessEqual,
    Local,
    MethodCall,
    Mod,
    Mul,
    Name(String),
    Nil,
    Not,
    NotEqual,
    Number(LexNumberValue),
    Or,
    Repeat,
    Return,
    SquareBracketLeft,
    Str(String),
    Sub,
    Then,
    True,
    Util,
    While,
}

/// The variant of a token, as a number; payloads are compared apart.
pub open spec fn token_tag(t: LexToken) -> nat {
    match t {
        LexToken::Add => 0,
        LexToken::And => 1,
        LexToken::Assign => 2,
        LexToken::Break => 3,
        LexToken::Concat => 4,
        LexToken::Div => 5,
        LexToken::Do => 6,
        LexToken::Dot => 7,
        LexToken::Dots => 8,
        LexToken::Else => 9,
        LexToken::ElseIf => 10,
        LexToken::End => 11,
        LexToken::Eof => 12,
        LexToken::Equal => 13,
        LexToken::False => 14,
        LexToken::For => 15,
        LexToken::Function => 16,
        LexToken::Goto => 17,
        LexToken::Greate => 18,
        LexToken::GreateEqual => 19,
        LexToken::If => 20,
        LexToken::In => 21,
        LexToken::Label => 22,
        LexToken::Less => 23,
        LexToken::LessEqual => 24,
        LexToken::Local => 25,
        LexToken::MethodCall => 26,
        LexToken::Mod => 27,
        LexToken::Mul => 28,
        LexToken::Name(_) => 29,
        LexToken::Nil => 30,
        LexToken::Not => 31,
        LexToken::NotEqual => 32,
        LexToken::Number(_) => 33,
        LexToken::Or => 34,
        LexToken::Repeat => 35,
        LexToken::Return => 36,
        LexToken::SquareBracketLeft => 37,
        LexToken::Str(_) => 38,
        LexToken::Sub => 39,
        LexToken::Then => 40,
        LexToken::True => 41,
        LexToken::Util => 42,
        LexToken::While => 43,
    }
}

/// Tokens are equal when their variants are and, for a payload variant, the payloads are.
pub open spec fn token_eq(a: LexToken, b: LexToken) -> bool {
    match (a, b) {
        (LexToken::Name(x), LexToken::Name(y)) => x@ == y@,
        (LexToken::Str(x), LexToken::Str(y)) => x@ == y@,
        (LexToken::Number(x), LexToken::Number(y)) => x@ == y@,
        _ => token_tag(a) == token_tag(b),
    }
}

/// The keyword spelled by `s`, if it is one; the match is exact and case-sensitive.
pub open spec fn keyword_of(s: Seq<char>) -> Option<LexToken> {
    if s == seq!['a', 'n', 'd'] {
        Some(LexToken::And)
    } else if s == seq!['b', 'r', 'e', 'a', 'k'] {
        Some(LexToken::Break)
    } else if s == seq!['d', 'o'] {
        Some(LexToken::Do)
    } else if s == seq!['e', 'l', 's', 'e'] {
        Some(LexToken::Else)
    } else if s == seq!['e', 'l', 's', 'e', 'i', 'f'] {
        Some(LexToken::ElseIf)
    } else if s == seq!['e', 'n', 'd'] {
        Some(LexToken::End)
    } else if s == seq!['f', 'a', 'l', 's', 'e'] {
        Some(LexToken::False)
    } else if s == seq!['f', 'o', 'r'] {
        Some(LexToken::For)
    } else if s == seq!['f', 'u', 'n', 'c', 't', 'i', 'o', 'n'] {
        Some(LexToken::Function)
    } else if s == seq!['g', 'o', 't', 'o'] {
        Some(LexToken::Goto)
    } else if s == seq!['i', 'f'] {
        Some(LexToken::If)
    } else if s == seq!['i', 'n'] {
        Some(LexToken::In)
    } else if s == seq!['l', 'o', 'c', 'a', 'l'] {
        Some(LexToken::Local)
    } else if s == seq!['n', 'i', 'l'] {
        Some(LexToken::Nil)
    } else if s == seq!['n', 'o', 't'] {
        Some(LexToken::Not)
    } else if s == seq!['o', 'r'] {
        Some(LexToken::Or)
    } else if s == seq!['r', 'e', 'p', 'e', 'a', 't'] {
        Some(LexToken::Repeat)
    } else if s == seq!['r', 'e', 't', 'u', 'r', 'n'] {
        Some(LexToken::Return)
    } else if s == seq!['t', 'h', 'e', 'n'] {
        Some(LexToken::Then)
    } else if s == seq!['t', 'r', 'u', 'e'] {
        Some(LexToken::True)
    } else if s == seq!['u', 't', 'i', 'l'] {
        Some(LexToken::Util)
    } else if s == seq!['w', 'h', 'i', 'l', 'e'] {
        Some(LexToken::While)
    } else {
        None
    }
}

/// Keywords are spelled in lowercase letters only, so text holding any other character (an
/// uppercase letter, a digit, `_`) is never a keyword: matching is exact and case-sensitive.
pub proof fn lemma_keywords_lowercase(s: Seq<char>)
    requires
        keyword_of(s) is Some,
    ensures
        forall|i: int| 0 <= i < s.len() ==> 'a' <= #[trigger] s[i] <= 'z',
        2 <= s.len() <= 8,
{
}

impl LexToken {
    fn tag(&self) -> (r: u8)
        ensures
            r as nat == token_tag(*self),
    {
        match self {
            LexToken::Add => 0,
            LexToken::And => 1,
            LexToken::Assign => 2,
            LexToken::Break => 3,
            LexToken::Concat => 4,
            LexToken::Div => 5,
            LexToken::Do => 6,
            LexToken::Dot => 7,
            LexToken::Dots => 8,
            LexToken::Else => 9,
            LexToken::ElseIf => 10,
            LexToken::End => 11,
            LexToken::Eof => 12,
            LexToken::Equal => 13,
            LexToken::False => 14,
            LexToken::For => 15,
            LexToken::Function => 16,
            LexToken::Goto => 17,
            LexToken::Greate => 18,
            LexToken::GreateEqual => 19,
            LexToken::If => 20,
            LexToken::In => 21,
            LexToken::Label => 22,
            LexToken::Less => 23,
            LexToken::LessEqual => 24,
            LexToken::Local => 25,
            LexToken::MethodCall => 26,
            LexToken::Mod => 27,
            LexToken::Mul => 28,
            LexToken::Name(_) => 29,
            LexToken::Nil => 30,
            LexToken::Not => 31,
            LexToken::NotEqual => 32,
            LexToken::Number(_) => 33,
            LexToken::Or => 34,
            LexToken::Repeat => 35,
            LexToken::Return => 36,
            LexToken::SquareBracketLeft => 37,
            LexToken::Str(_) => 38,
            LexToken::Sub => 39,
            LexToken::Then => 40,
            LexToken::True => 41,
            LexToken::Util => 42,
            LexToken::While => 43,
        }
    }
}

impl Clone for LexToken {
    fn clone(&self) -> (r: Self)
        ensures
            token_eq(r, *self),
    {
        match self {
            LexToken::Name(x) => LexToken::Name(x.clone()),
            LexToken::Str(x) => LexToken::Str(x.clone()),
            LexToken::Number(x) => LexToken::Number(x.clone()),
            LexToken::Add => LexToken::Add,
            LexToken::And => LexToken::And,
            LexToken::Assign => LexToken::Assign,
            LexToken::Break => LexToken::Break,
            LexToken::Concat => LexToken::Concat,
            LexToken::Div => LexToken::Div,
            LexToken::Do => LexToken::Do,
            LexToken::Dot => LexToken::Dot,
            LexToken::Dots => LexToken::Dots,
            LexToken::Else => LexToken::Else,
            LexToken::ElseIf => LexToken::ElseIf,
            LexToken::End => LexToken::End,
            LexToken::Eof => LexToken::Eof,
            LexToken::Equal => LexToken::Equal,
            LexToken::False => LexToken::False,
            LexToken::For => LexToken::For,
            LexToken::Function => LexToken::Function,
            LexToken::Goto => LexToken::Goto,
            LexToken::Greate => LexToken::Greate,
            LexToken::GreateEqual => LexToken::GreateEqual,
            LexToken::If => LexToken::If,
            LexToken::In => LexToken::In,
            LexToken::Label => LexToken::Label,
            LexToken::Less => LexToken::Less,
            LexToken::LessEqual => LexToken::LessEqual,
            LexToken::Local => LexToken::Local,
            LexToken::MethodCall => LexToken::MethodCall,
            LexToken::Mod => LexToken::Mod,
            LexToken::Mul => LexToken::Mul,
            LexToken::Nil => LexToken::Nil,
            LexToken::Not => LexToken::Not,
            LexToken::NotEqual => LexToken::NotEqual,
            LexToken::Or => LexToken::Or,
            LexToken::Repeat => LexToken::Repeat,
            LexToken::Return => LexToken::Return,
            LexToken::SquareBracketLeft => LexToken::SquareBracketLeft,
            LexToken::Sub => LexToken::Sub,
            LexToken::Then => LexToken::Then,
            LexToken::True => LexToken::True,
            LexToken::Util => LexToken::Util,
            LexToken::While => LexToken::While,
        }
    }
}

impl PartialEq for LexToken {
    fn eq(&self, other: &Self) -> (r: bool)
        ensures
            r == token_eq(*self, *other),
    {
        let same = self.tag() == other.tag();
        if !same {
            return false;
        }
        match self {
            LexToken::Name(x) => match other {
                LexToken::Name(y) => x.eq(y),
                _ => false,
            },
            LexToken::Str(x) => match other {
                LexToken::Str(y) => x.eq(y),
                _ => false,
            },
            LexToken::Number(x) => match other {
                LexToken::Number(y) => x.eq(y),
                _ => false,
            },
            _ => true,
        }
    }
}

impl vstd::std_specs::cmp::PartialEqSpecImpl for LexToken {
    open spec fn obeys_eq_spec() -> bool {
        true
    }

    open spec fn eq_spec(&self, other: &LexToken) -> bool {
        token_eq(*self, *other)
    }
}

/// True when `v` holds exactly the characters of `w`.
fn is_word(v: &Vec<char>, w: &[char]) -> (r: bool)
    ensures
        r == (v@ == w@),
{
    if v.len() != w.len() {
        return false;
    }
    let mut i: usize = 0;
    while i < v.len()
        invariant
            v@.len() == w@.len(),
            0 <= i <= v@.len(),
            forall|j: int| 0 <= j < i ==> v@[j] == w@[j],
        decreases v@.len() - i,
    {
        if v[i] != w[i] {
            return false;
        }
        i = i + 1;
    }
    proof {
        assert(v@ =~= w@);
    }
    true
}

/// Looks `v` up in the keyword table.
pub fn keyword(v: &Vec<char>) -> (r: Option<LexToken>)
    ensures
        r == keyword_of(v@),
{
    let w: [char; 3] = ['a', 'n', 'd'];
    proof {
        assert(w@ =~= seq!['a', 'n', 'd']);
    }
    if is_word(v, &w) {
        return Some(LexToken::And);
    }
    let w: [char; 5] = ['b', 'r', 'e', 'a', 'k'];
    proof {
        assert(w@ =~= seq!['b', 'r', 'e', 'a', 'k']);
    }
    if is_word(v, &w) {
        return Some(LexToken::Break);
    }
    let w: [char; 2] = ['d', 'o'];
    proof {
        assert(w@ =~= seq!['d', 'o']);
    }
    if is_word(v, &w) {
        return Some(LexToken::Do);
    }
    let w: [char; 4] = ['e', 'l', 's', 'e'];
    proof {
        assert(w@ =~= seq!['e', 'l', 's', 'e']);
    }
    if is_word(v, &w) {
        return Some(LexToken::Else);
    }
    let w: [char; 6] = ['e', 'l', 's', 'e', 'i', 'f'];
    proof {
        assert(w@ =~= seq!['e', 'l', 's', 'e', 'i', 'f']);
    }
    if is_word(v, &w) {
        return Some(LexToken::ElseIf);
    }
    let w: [char; 3] = ['e', 'n', 'd'];
    proof {
        assert(w@ =~= seq!['e', 'n', 'd']);
    }
    if is_word(v, &w) {
        return Some(LexToken::End);
    }
    let w: [char; 5] = ['f', 'a', 'l', 's', 'e'];
    proof {
        assert(w@ =~= seq!['f', 'a', 'l', 's', 'e']);
    }
    if is_word(v, &w) {
        return Some(LexToken::False);
    }
    let w: [char; 3] = ['f', 'o', 'r'];
    proof {
        assert(w@ =~= seq!['f', 'o', 'r']);
    }
    if is_word(v, &w) {
        return Some(LexToken::For);
    }
    let w: [char; 8] = ['f', 'u', 'n', 'c', 't', 'i', 'o', 'n'];
    proof {
        assert(w@ =~= seq!['f', 'u', 'n', 'c', 't', 'i', 'o', 'n']);
    }
    if is_word(v, &w) {
        return Some(LexToken::Function);
    }
    let w: [char; 4] = ['g', 'o', 't', 'o'];
    proof {
        assert(w@ =~= seq!['g', 'o', 't', 'o']);
    }
    if is_word(v, &w) {
        return Some(LexToken::Goto);
    }
    let w: [char; 2] = ['i', 'f'];
    proof {
        assert(w@ =~= seq!['i', 'f']);
    }
    if is_word(v, &w) {
        return Some(LexToken::If);
    }
    let w: [char; 2] = ['i', 'n'];
    proof {
        assert(w@ =~= seq!['i', 'n']);
    }
    if is_word(v, &w) {
        return Some(LexToken::In);
    }
    let w: [char; 5] = ['l', 'o', 'c', 'a', 'l'];
    proof {
        assert(w@ =~= seq!['l', 'o', 'c', 'a', 'l']);
    }
    if is_word(v, &w) {
        return Some(LexToken::Local);
    }
    let w: [char; 3] = ['n', 'i', 'l'];
    proof {
        assert(w@ =~= seq!['n', 'i', 'l']);
    }
    if is_word(v, &w) {
        return Some(LexToken::Nil);
    }
    let w: [char; 3] = ['n', 'o', 't'];
    proof {
        assert(w@ =~= seq!['n', 'o', 't']);
    }
    if is_word(v, &w) {
        return Some(LexToken::Not);
    }
    let w: [char; 2] = ['o', 'r'];
    proof {
        assert(w@ =~= seq!['o', 'r']);
    }
    if is_word(v, &w) {
        return Some(LexToken::Or);
    }
    let w: [char; 6] = ['r', 'e', 'p', 'e', 'a', 't'];
    proof {
        assert(w@ =~= seq!['r', 'e', 'p', 'e', 'a', 't']);
    }
    if is_word(v, &w) {
        return Some(LexToken::Repeat);
    }
    let w: [char; 6] = ['r', 'e', 't', 'u', 'r', 'n'];
    proof {
        assert(w@ =~= seq!['r', 'e', 't', 'u', 'r', 'n']);
    }
    if is_word(v, &w) {
        return Some(LexToken::Return);
    }
    let w: [char; 4] = ['t', 'h', 'e', 'n'];
    proof {
        assert(w@ =~= seq!['t', 'h', 'e', 'n']);
    }
    if is_word(v, &w) {
        return Some(LexToken::Then);
    }
    let w: [char; 4] = ['t', 'r', 'u', 'e'];
    proof {
        assert(w@ =~= seq!['t', 'r', 'u', 'e']);
    }
    if is_word(v, &w) {
        return Some(LexToken::True);
    }
    let w: [char; 4] = ['u', 't', 'i', 'l'];
    proof {
        assert(w@ =~= seq!['u', 't', 'i', 'l']);
    }
    if is_word(v, &w) {
        return Some(LexToken::Util);
    }
    let w: [char; 5] = ['w', 'h', 'i', 'l', 'e'];
    proof {
        assert(w@ =~= seq!['w', 'h', 'i', 'l', 'e']);
    }
    if is_word(v, &w) {
        return Some(LexToken::While);
    }
    None
}

} // verus!
