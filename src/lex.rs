pub mod number;
pub mod state;
pub mod token;

use vstd::prelude::*;

use self::state::{ChunkSource, LexStatus, NoMoreInput};
use self::token::LexToken;

verus! {

/// A token stream with one token of lookahead over a scanner.
#[verifier::reject_recursive_types(S)]
pub struct LexState<S: ChunkSource> {
    status: LexStatus<S>,
    token: Option<LexToken>,
    look_ahead: Option<Option<LexToken>>,
    last_line: u32,
}

/// What `peek` does: a pending lookahead is handed back with nothing changed; otherwise one scan
/// fills the slot and the current token stays.
pub open spec fn peek_post<S: ChunkSource>(
    old: LexState<S>,
    new: LexState<S>,
    r: Option<LexToken>,
) -> bool {
    &&& new.wf()
    &&& new.pending() is Some
    &&& r == new.pending()->0
    &&& new.current() == old.current()
    &&& new.last() == old.last()
    &&& old.pending() is Some ==> new == old
    &&& old.pending() is None ==> LexStatus::scanned(old.scanner(), new.scanner(), r)
    &&& old.pending() is None ==> state::after_blanks(
        LexStatus::consumed(&old.scanner(), &new.scanner()),
        new.scanner().cur(),
        r,
        old.scanner().line(),
        new.scanner().line(),
    )
}

/// What `advance` does: a pending lookahead becomes the current token without a scan;
/// otherwise the scanner produces it. Either way the slot is left empty.
pub open spec fn advance_post<S: ChunkSource>(old: LexState<S>, new: LexState<S>) -> bool {
    &&& new.wf()
    &&& new.pending() is None
    &&& new.last() == old.scanner().line()
    &&& old.pending() is Some ==> new.current() == old.pending()->0 && new.scanner()
        == old.scanner()
    &&& old.pending() is None ==> LexStatus::scanned(old.scanner(), new.scanner(), new.current())
    &&& old.pending() is None ==> state::after_blanks(
        LexStatus::consumed(&old.scanner(), &new.scanner()),
        new.scanner().cur(),
        new.current(),
        old.scanner().line(),
        new.scanner().line(),
    )
    &&& at_end(old) ==> {
        &&& at_end(new)
        &&& new.current() == Some(LexToken::Eof)
        &&& new.scanner().seen() == old.scanner().seen()
    }
}

/// The stream has reached the end of its input and holds no lookahead.
pub open spec fn at_end<S: ChunkSource>(s: LexState<S>) -> bool {
    s.pending() is None && s.scanner().cur() is None
}

impl LexState<NoMoreInput> {
    /// A stream over `src` alone, with its first character read.
    pub fn new(src: &str) -> (r: Self)
        ensures
            r.wf(),
            r.current() is None,
            r.pending() is None,
            r.scanner().seen().len() == 0,
            r.scanner().line() == 0,
            src@.len() > 0 ==> r.scanner().cur() == Some(src@[0]),
            src@.len() == 0 ==> at_end(r),
            r.scanner().is_ended(),
            r.scanner().received() == src@,
    {
        let mut status = LexStatus::new(src);
        status.setup();
        LexState { status, token: None, look_ahead: None, last_line: 0 }
    }
}

impl<S: ChunkSource> LexState<S> {
    /// A stream over `src` and then what `more_fn` hands over, with its first character read.
    pub fn with_source(src: &str, more_fn: S) -> (r: Self)
        ensures
            r.wf(),
            r.current() is None,
            r.pending() is None,
            r.scanner().seen().len() == 0,
            r.scanner().line() == 0,
            src@.len() > 0 ==> r.scanner().cur() == Some(src@[0]),
            state::prefix_of(src@, r.scanner().received()),
    {
        let mut status = LexStatus::with_source(src, more_fn);
        status.setup();
        LexState { status, token: None, look_ahead: None, last_line: 0 }
    }

    pub closed spec fn wf(&self) -> bool {
        self.status.wf()
    }

    /// The current token; `None` before the first `advance` or after a lexical error.
    pub closed spec fn current(&self) -> Option<LexToken> {
        self.token
    }

    /// The pending lookahead, if any: the result of the scan that `peek` made.
    pub closed spec fn pending(&self) -> Option<Option<LexToken>> {
        self.look_ahead
    }

    pub closed spec fn last(&self) -> u32 {
        self.last_line
    }

    pub closed spec fn scanner(&self) -> LexStatus<S> {
        self.status
    }

    /// Moves to the next token and returns whether it was scanned without error.
    pub fn advance(&mut self) -> (r: bool)
        requires
            old(self).wf(),
        ensures
            advance_post(*old(self), *final(self)),
            r == (final(self).current() is Some),
    {
        self.last_line = self.status.current_line();
        let pending = self.look_ahead.take();
        match pending {
            Some(t) => {
                self.token = t;
            },
            None => {
                self.token = self.status.scan();
            },
        }
        self.token.is_some()
    }

    /// The next token, scanned at most once however often this is called before `advance`.
    pub fn peek(&mut self) -> (r: &Option<LexToken>)
        requires
            old(self).wf(),
        ensures
            peek_post(*old(self), *final(self), *r),
    {
        if self.look_ahead.is_none() {
            let t = self.status.scan();
            self.look_ahead = Some(t);
        }
        match &self.look_ahead {
            Some(t) => t,
            None => &self.token,
        }
    }

    /// Moves the scanner's cursor one character.
    pub fn next(&mut self) -> (r: Option<char>)
        requires
            old(self).wf(),
        ensures
            final(self).wf(),
            LexStatus::stepped(&old(self).scanner(), &final(self).scanner()),
            r == final(self).scanner().cur(),
            final(self).current() == old(self).current(),
            final(self).pending() == old(self).pending(),
    {
        self.status.next()
    }

    /// Saves the scanner's current character, then moves its cursor.
    pub fn save_next(&mut self) -> (r: Option<char>)
        requires
            old(self).wf(),
        ensures
            final(self).wf(),
            final(self).scanner().saved() == match old(self).scanner().cur() {
                Some(c) => old(self).scanner().saved().push(c),
                None => old(self).scanner().saved(),
            },
            r == final(self).scanner().cur(),
            final(self).current() == old(self).current(),
            final(self).pending() == old(self).pending(),
    {
        self.status.save_next()
    }

    /// Scans a numeric literal at the cursor, which must be on a digit.
    pub fn scan_num(&mut self) -> (r: Option<LexToken>)
        requires
            old(self).wf(),
            old(self).scanner().cur() is Some,
            crate::toolbox::chr::is_digit_char(old(self).scanner().cur()->0),
        ensures
            final(self).wf(),
            final(self).scanner().saved().len() == 0,
            final(self).scanner().line() == old(self).scanner().line(),
            final(self).scanner().seen().len() > old(self).scanner().seen().len(),
            state::prefix_of(old(self).scanner().seen(), final(self).scanner().seen()),
            LexStatus::consumed(&old(self).scanner(), &final(self).scanner())[0] == old(
                self,
            ).scanner().cur()->0,
            final(self).scanner().cur() is Some ==> {
                &&& !crate::toolbox::chr::is_ident_char(final(self).scanner().cur()->0)
                &&& final(self).scanner().cur()->0 != '.'
            },
            state::number_run(LexStatus::consumed(&old(self).scanner(), &final(self).scanner())),
            final(self).scanner().cur() is Some ==> !state::num_continues(
                LexStatus::consumed(&old(self).scanner(), &final(self).scanner()),
                final(self).scanner().cur()->0,
            ),
            LexStatus::same_input(&old(self).scanner(), &final(self).scanner()),
            state::number_result(
                r,
                old(self).scanner().saved() + LexStatus::consumed(
                    &old(self).scanner(),
                    &final(self).scanner(),
                ),
            ),
            final(self).current() == old(self).current(),
            final(self).pending() == old(self).pending(),
    {
        self.status.number()
    }

    /// The current token.
    pub fn token(&self) -> (r: &Option<LexToken>)
        ensures
            *r == self.current(),
    {
        &self.token
    }

    pub fn current_line(&self) -> (r: u32)
        ensures
            r == self.scanner().line(),
    {
        self.status.current_line()
    }

    /// The line in effect before the scan that produced the current token.
    pub fn last_line(&self) -> (r: u32)
        ensures
            r == self.last(),
    {
        self.last_line
    }
}

/// Peeking twice without advancing yields equal tokens, and the second peek reads nothing.
pub proof fn lemma_peek_twice<S: ChunkSource>(
    s0: LexState<S>,
    s1: LexState<S>,
    s2: LexState<S>,
    r1: Option<LexToken>,
    r2: Option<LexToken>,
)
    requires
        peek_post(s0, s1, r1),
        peek_post(s1, s2, r2),
    ensures
        r1 == r2,
        s2 == s1,
        s2.scanner().seen() == s1.scanner().seen(),
{
}

/// Once the input has ended, every further `advance` yields `Eof` and leaves the stream at its end.
pub proof fn lemma_eof_repeats<S: ChunkSource>(s0: LexState<S>, s1: LexState<S>)
    requires
        at_end(s0),
        advance_post(s0, s1),
    ensures
        at_end(s1),
        s1.current() == Some(LexToken::Eof),
{
}

} // verus!
