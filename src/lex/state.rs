use vstd::prelude::*;
use vstd::std_specs::iter::IteratorSpec;

use super::number::{number_model, LexNumberValue, NumberModel};
use super::token::{keyword, keyword_of, LexToken};
use crate::toolbox::chr::{is_digit, is_digit_char, is_ident, is_ident_char};

verus! {

broadcast use vstd::string::axiom_spec_iter, vstd::string::next_postcondition;

/// Where the scanner gets more source text once the current chunk is used up.
pub trait ChunkSource {
    /// The next chunk of characters, or `None` once the input has ended for good.
    fn next_chunk(&mut self) -> Option<Vec<char>>;
}

/// A source with nothing beyond the first chunk.
pub struct NoMoreInput;

impl ChunkSource for NoMoreInput {
    fn next_chunk(&mut self) -> Option<Vec<char>> {
        None
    }
}

/// The characters of `s`, in order.
pub fn chars_of(s: &str) -> (r: Vec<char>)
    ensures
        r@ == s@,
{
    let mut it = s.chars();
    let mut out: Vec<char> = Vec::new();
    loop
        invariant
            out@ + it.remaining() == s@,
            it.obeys_prophetic_iter_laws(),
            it.decrease() is Some,
        decreases it.decrease()->0,
    {
        let ghost before = it.remaining();
        match it.next() {
            Some(c) => {
                out.push(c);
                proof {
                    assert(out@ + it.remaining() =~= s@);
                }
            },
            None => {
                proof {
                    assert(out@ + before =~= s@);
                }
                return out;
            },
        }
    }
}

/// Relies on `String::push`: appends one character.
#[verifier::external_body]
fn push_char(s: &mut String, c: char)
    ensures
        final(s)@ == old(s)@.push(c),
{
    s.push(c)
}

/// Line ends are `\n` and `\r`.
pub open spec fn is_eol_char(c: Option<char>) -> bool {
    c == Some('\n') || c == Some('\r')
}

/// `a` is the start of `b`.
pub open spec fn prefix_of(a: Seq<char>, b: Seq<char>) -> bool {
    a.len() <= b.len() && forall|i: int| 0 <= i < a.len() ==> #[trigger] b[i] == a[i]
}

/// A run of `n` equals signs.
pub open spec fn eq_run(n: nat) -> Seq<char> {
    Seq::new(n, |i: int| '=')
}

/// The exponent marker of a literal: `p` after a `0x` or `0X` prefix, else `e`.
pub open spec fn exp_marker(lit: Seq<char>) -> char {
    if lit.len() >= 2 && lit[0] == '0' && (lit[1] == 'x' || lit[1] == 'X') {
        'p'
    } else {
        'e'
    }
}

/// `c` is the exponent marker `m`, in either case.
pub open spec fn marker_match(c: char, m: char) -> bool {
    ||| m == 'e' && (c == 'e' || c == 'E')
    ||| m == 'p' && (c == 'p' || c == 'P')
}

/// A numeric literal read as `lit` goes on with `x`: an identifier character, a point, or a
/// sign right after the exponent marker.
pub open spec fn num_continues(lit: Seq<char>, x: char) -> bool {
    ||| is_ident_char(x)
    ||| x == '.'
    ||| (x == '-' || x == '+') && lit.len() > 0 && marker_match(lit.last(), exp_marker(lit))
}

/// Every character of `t` after the first continues the literal before it.
pub open spec fn number_run(t: Seq<char>) -> bool {
    forall|i: int| 1 <= i < t.len() ==> num_continues(t.take(i), #[trigger] t[i])
}

/// `r` is what a numeric literal spelled `lit` scans to: its decoded value, or no token.
pub open spec fn number_result(r: Option<LexToken>, lit: Seq<char>) -> bool {
    match number_model(lit) {
        NumberModel::Invalid => r is None,
        m => match r {
            Some(LexToken::Number(v)) => v@ == m,
            _ => false,
        },
    }
}

/// `t` is the token for the identifier-shaped text `s`: its keyword, else a name.
pub open spec fn name_result(t: LexToken, s: Seq<char>) -> bool {
    match keyword_of(s) {
        Some(k) => t == k,
        None => match t {
            LexToken::Name(x) => x@ == s,
            _ => false,
        },
    }
}

/// The character that a backslash escape stands for: only `n`, `r` and `t` are escapes.
pub open spec fn escape_char(c: char) -> Option<char> {
    if c == 'n' {
        Some('\n')
    } else if c == 'r' {
        Some('\r')
    } else if c == 't' {
        Some('\t')
    } else {
        None
    }
}

/// A character that stands for itself between quotes `delim`.
pub open spec fn plain_char(c: char, delim: char) -> bool {
    c != '\\' && c != '\n' && c != '\r' && c != delim
}

/// The text `raw` found between quotes `delim` decodes to `out`: each plain character stands
/// for itself and each escape for its character.
pub open spec fn decodes(raw: Seq<char>, out: Seq<char>, delim: char) -> bool
    decreases out.len(),
{
    if out.len() == 0 {
        raw.len() == 0
    } else {
        ||| raw.len() >= 1 && plain_char(raw.last(), delim) && raw.last() == out.last() && decodes(
            raw.drop_last(),
            out.drop_last(),
            delim,
        )
        ||| raw.len() >= 2 && raw[raw.len() - 2] == '\\' && escape_char(raw.last()) == Some(
            out.last(),
        ) && decodes(raw.drop_last().drop_last(), out.drop_last(), delim)
    }
}

/// `r` is what scanning the quoted string `text`, delimiters included, gives when it succeeds.
pub open spec fn string_result(r: Option<LexToken>, text: Seq<char>, delim: char) -> bool {
    match r {
        Some(LexToken::Str(x)) => {
            &&& text.len() >= 2
            &&& text[0] == delim
            &&& text.last() == delim
            &&& decodes(text.subrange(1, text.len() - 1), x@, delim)
        },
        Some(_) => false,
        None => true,
    }
}

/// Why a quoted string opened by `delim` failed, after reading `text`, with `cur` at the cursor.
/// What was read after the opening quote decodes (up to a final backslash), so no closing quote
/// came; then the input ended, a raw line end came, or a backslash was followed by something
/// other than an escape.
pub open spec fn string_failure(text: Seq<char>, cur: Option<char>, delim: char) -> bool {
    &&& text.len() >= 1
    &&& text[0] == delim
    &&& {
        ||| exists|out: Seq<char>| #[trigger] decodes(text.skip(1), out, delim)
        ||| text.last() == '\\' && exists|out: Seq<char>|
            #[trigger] decodes(text.skip(1).drop_last(), out, delim)
    }
    &&& {
        ||| cur is None
        ||| is_eol_char(cur)
        ||| text.last() == '\\' && escape_char(cur->0) is None
    }
}

/// The escaped spelling of one character: line ends and tabs become escapes.
pub open spec fn escape_of(c: char) -> Seq<char> {
    if c == '\n' {
        seq!['\\', 'n']
    } else if c == '\r' {
        seq!['\\', 'r']
    } else if c == '\t' {
        seq!['\\', 't']
    } else {
        seq![c]
    }
}

/// The escaped spelling of a text.
pub open spec fn escape_text(out: Seq<char>) -> Seq<char>
    decreases out.len(),
{
    if out.len() == 0 {
        Seq::empty()
    } else {
        escape_text(out.drop_last()) + escape_of(out.last())
    }
}

/// Decoding a quoted string and escaping the result again gives back the text that was
/// decoded, provided that text held no raw tab (a tab comes back as its escape).
pub proof fn lemma_escape_round_trip(raw: Seq<char>, out: Seq<char>, delim: char)
    requires
        decodes(raw, out, delim),
        forall|i: int| 0 <= i < raw.len() ==> raw[i] != '\t',
    ensures
        escape_text(out) == raw,
    decreases out.len(),
{
    if out.len() > 0 {
        let c = out.last();
        if raw.len() >= 1 && plain_char(raw.last(), delim) && raw.last() == c && decodes(
            raw.drop_last(),
            out.drop_last(),
            delim,
        ) {
            assert(raw.last() != '\t');
            lemma_escape_round_trip(raw.drop_last(), out.drop_last(), delim);
            assert(raw =~= raw.drop_last() + seq![c]);
        } else {
            let pre = raw.drop_last().drop_last();
            assert forall|i: int| 0 <= i < pre.len() implies pre[i] != '\t' by {
                assert(pre[i] == raw[i]);
            }
            lemma_escape_round_trip(pre, out.drop_last(), delim);
            assert(raw =~= pre + seq!['\\', raw.last()]);
        }
    }
}

/// Escaping a text with no backslash and no delimiter, then decoding it, gives the text back.
pub proof fn lemma_escaped_decodes(out: Seq<char>, delim: char)
    requires
        delim == '\'' || delim == '"',
        forall|i: int| 0 <= i < out.len() ==> out[i] != '\\' && out[i] != delim,
    ensures
        decodes(escape_text(out), out, delim),
    decreases out.len(),
{
    if out.len() > 0 {
        let pre = out.drop_last();
        let c = out.last();
        assert forall|i: int| 0 <= i < pre.len() implies pre[i] != '\\' && pre[i] != delim by {
            assert(pre[i] == out[i]);
        }
        lemma_escaped_decodes(pre, delim);
        let raw = escape_text(out);
        assert(out[out.len() - 1] == c);
        if c == '\n' || c == '\r' || c == '\t' {
            assert(raw.drop_last().drop_last() =~= escape_text(pre));
        } else {
            assert(raw.drop_last() =~= escape_text(pre));
        }
    }
}

/// The token that a one-character operator stands for.
pub open spec fn single_op(c: char) -> Option<LexToken> {
    if c == '+' {
        Some(LexToken::Add)
    } else if c == '*' {
        Some(LexToken::Mul)
    } else if c == '/' {
        Some(LexToken::Div)
    } else if c == '%' {
        Some(LexToken::Mod)
    } else {
        None
    }
}

/// The closer of a long bracket at `level`: `]`, `level` equals signs, `]`.
pub open spec fn closer(level: nat) -> Seq<char> {
    seq![']'] + eq_run(level) + seq![']']
}

pub open spec fn no_cr(s: Seq<char>) -> bool {
    forall|i: int| 0 <= i < s.len() ==> s[i] != '\r'
}

/// The opener of a long bracket at `level`: `[`, `level` equals signs, `[`.
pub open spec fn opener(level: nat) -> Seq<char> {
    seq!['['] + eq_run(level) + seq!['[']
}

/// Reads `raw` left to right, turning each line end (`\n`, `\r`, `\r\n` or `\n\r`) into one
/// `\n`. The second part is the line-end character just read, if it may still pair with the next.
pub open spec fn line_fold(raw: Seq<char>) -> (Seq<char>, Option<char>)
    decreases raw.len(),
{
    if raw.len() == 0 {
        (Seq::empty(), None)
    } else {
        let (out, pend) = line_fold(raw.drop_last());
        let c = raw.last();
        if c == '\n' || c == '\r' {
            if pend is Some && pend->0 != c {
                (out, None)
            } else {
                (out.push('\n'), Some(c))
            }
        } else {
            (out.push(c), None)
        }
    }
}

/// The text of a long bracket whose raw content is `raw`: line ends normalised, and a line end
/// right after the opener dropped.
pub open spec fn long_text(raw: Seq<char>) -> Seq<char> {
    if raw.len() > 0 && (raw[0] == '\n' || raw[0] == '\r') {
        line_fold(raw).0.skip(1)
    } else {
        line_fold(raw).0
    }
}

/// The number of `\n` in `s`.
pub open spec fn count_nl(s: Seq<char>) -> nat
    decreases s.len(),
{
    if s.len() == 0 {
        0
    } else {
        count_nl(s.drop_last()) + if s.last() == '\n' {
            1nat
        } else {
            0nat
        }
    }
}

/// Line `l` moved on by `n` line ends, stopping at `u32::MAX`.
pub open spec fn line_after(l: u32, n: nat) -> u32 {
    if l + n <= u32::MAX {
        (l + n) as u32
    } else {
        u32::MAX
    }
}

proof fn lemma_count_nl_plain(a: Seq<char>, w: Seq<char>)
    requires
        forall|i: int| 0 <= i < w.len() ==> w[i] != '\n',
    ensures
        count_nl(a + w) == count_nl(a),
    decreases w.len(),
{
    if w.len() == 0 {
        assert(a + w =~= a);
    } else {
        lemma_count_nl_plain(a, w.drop_last());
        assert((a + w).drop_last() =~= a + w.drop_last());
        assert((a + w).last() == w.last());
    }
}

/// A text that starts with a line end yields at least one `\n`.
proof fn lemma_fold_grows(raw: Seq<char>)
    ensures
        raw.len() > 0 && (raw[0] == '\n' || raw[0] == '\r') ==> line_fold(raw).0.len() >= 1,
    decreases raw.len(),
{
    if raw.len() == 1 {
        assert(raw.drop_last() =~= Seq::<char>::empty());
        assert(line_fold(Seq::<char>::empty()).0.len() == 0);
    } else if raw.len() > 1 {
        lemma_fold_grows(raw.drop_last());
        assert(raw.drop_last()[0] == raw[0]);
    }
}

/// Appending characters that are not line ends appends them to the text.
proof fn lemma_fold_plain(raw: Seq<char>, w: Seq<char>)
    requires
        forall|i: int| 0 <= i < w.len() ==> w[i] != '\n' && w[i] != '\r',
    ensures
        line_fold(raw + w).0 == line_fold(raw).0 + w,
        w.len() > 0 ==> line_fold(raw + w).1 is None,
        w.len() == 0 ==> line_fold(raw + w) == line_fold(raw),
    decreases w.len(),
{
    if w.len() == 0 {
        assert(raw + w =~= raw);
        assert(line_fold(raw).0 + w =~= line_fold(raw).0);
    } else {
        lemma_fold_plain(raw, w.drop_last());
        assert((raw + w).drop_last() =~= raw + w.drop_last());
        assert((raw + w).last() == w.last());
        assert(line_fold(raw).0 + w =~= (line_fold(raw).0 + w.drop_last()).push(w.last()));
    }
}

proof fn lemma_long_text_plain(raw: Seq<char>, w: Seq<char>)
    requires
        w.len() > 0,
        forall|i: int| 0 <= i < w.len() ==> w[i] != '\n' && w[i] != '\r',
    ensures
        long_text(raw + w) == long_text(raw) + w,
        line_fold(raw + w).1 is None,
        (raw + w).len() > 0,
{
    lemma_fold_plain(raw, w);
    lemma_fold_grows(raw);
    if raw.len() > 0 {
        assert((raw + w)[0] == raw[0]);
    } else {
        assert(raw + w =~= w);
        assert(line_fold(raw).0 + w =~= w);
    }
    let out = line_fold(raw).0;
    if raw.len() > 0 && (raw[0] == '\n' || raw[0] == '\r') {
        assert((out + w).skip(1) =~= out.skip(1) + w);
    }
}

/// `t` agrees with the closer of `level` from position `i` on, as far as `t` goes.
pub open spec fn closer_prefix(t: Seq<char>, i: int, level: nat) -> bool {
    forall|j: int| 0 <= j < closer(level).len() && i + j < t.len() ==> #[trigger] t[i + j]
        == closer(level)[j]
}

/// `t` holds a whole closer of `level` at position `i`.
pub open spec fn closer_at(t: Seq<char>, i: int, level: nat) -> bool {
    0 <= i && i + closer(level).len() <= t.len() && t.subrange(i, i + closer(level).len())
        == closer(level)
}

pub open spec fn opt_seq(c: Option<char>) -> Seq<char> {
    match c {
        Some(x) => seq![x],
        None => Seq::empty(),
    }
}

/// While reading a long bracket: with a character at the cursor, no closer of `level` can start
/// inside the content `raw` read so far, whatever comes after the cursor.
pub open spec fn no_early_closer(raw: Seq<char>, cur: Option<char>, level: nat) -> bool {
    cur is Some ==> forall|i: int|
        0 <= i < raw.len() ==> !closer_prefix(raw + opt_seq(cur), i, level)
}

proof fn lemma_closer_prefix_shorter(a: Seq<char>, b: Seq<char>, i: int, level: nat)
    requires
        0 <= i,
        a.len() <= b.len(),
        forall|k: int| 0 <= k < a.len() ==> a[k] == b[k],
        closer_prefix(b, i, level),
    ensures
        closer_prefix(a, i, level),
{
    assert forall|j: int| 0 <= j < closer(level).len() && i + j < a.len() implies #[trigger] a[i + j]
        == closer(level)[j] by {
        assert(b[i + j] == closer(level)[j]);
    }
}

/// Reading a character other than `]` keeps closers out of the content.
proof fn lemma_extend_plain(raw: Seq<char>, c: char, x: Option<char>, level: nat)
    requires
        no_early_closer(raw, Some(c), level),
        c != ']',
    ensures
        no_early_closer(raw.push(c), x, level),
{
    if x is Some {
        let a = raw + seq![c];
        let t = raw.push(c) + opt_seq(x);
        assert(a =~= raw.push(c));
        assert forall|i: int| 0 <= i < raw.push(c).len() implies !closer_prefix(t, i, level) by {
            if i < raw.len() {
                if closer_prefix(t, i, level) {
                    assert forall|k: int| 0 <= k < a.len() implies a[k] == t[k] by {
                        assert(t[k] == raw.push(c)[k]);
                    }
                    lemma_closer_prefix_shorter(a, t, i, level);
                    assert(opt_seq(Some(c)) == seq![c]);
                    assert(!closer_prefix(raw + opt_seq(Some(c)), i, level));
                }
            } else {
                assert(t[i + 0] == c);
                assert(closer(level)[0] == ']');
            }
        }
    }
}

/// Reading a run `]` and `n` equals signs that is not the closer keeps closers out of the content.
proof fn lemma_extend_run(raw: Seq<char>, n: nat, x: Option<char>, level: nat)
    requires
        no_early_closer(raw, Some(']'), level),
        x is Some ==> (n > level || (n < level && x->0 != '=') || (n == level && x->0 != ']')),
    ensures
        no_early_closer(raw + seq![']'] + eq_run(n), x, level),
{
    if x is Some {
        let w = seq![']'] + eq_run(n);
        let r2 = raw + w;
        let t = r2 + opt_seq(x);
        let a = raw + seq![']'];
        let cl = closer(level);
        assert(t =~= raw + seq![']'] + eq_run(n) + opt_seq(x));
        assert(t.len() == raw.len() + n + 2);
        assert forall|i: int| 0 <= i < r2.len() implies !closer_prefix(t, i, level) by {
            if i < raw.len() {
                if closer_prefix(t, i, level) {
                    assert forall|k: int| 0 <= k < a.len() implies a[k] == t[k] by {
                        if k < raw.len() {
                            assert(t[k] == raw[k]);
                        } else {
                            assert(t[k] == w[0]);
                        }
                    }
                    lemma_closer_prefix_shorter(a, t, i, level);
                    assert(opt_seq(Some(']')) == seq![']']);
                    assert(!closer_prefix(raw + opt_seq(Some(']')), i, level));
                }
            } else if i == raw.len() {
                if n > level {
                    assert(t[i + (level as int + 1)] == '=');
                    assert(cl[level as int + 1] == ']');
                } else {
                    assert(t[i + (n as int + 1)] == x->0);
                    if n < level {
                        assert(cl[n as int + 1] == '=');
                    } else {
                        assert(cl[n as int + 1] == ']');
                    }
                }
            } else {
                assert(t[i + 0] == '=');
                assert(cl[0] == ']');
            }
        }
    }
}

/// No whole closer of `level` lies inside `t`.
pub open spec fn no_closer_in(t: Seq<char>, level: nat) -> bool {
    forall|i: int| 0 <= i < t.len() ==> !#[trigger] closer_at(t, i, level)
}

/// A whole closer in `t` agrees with the closer on any longer text that starts with `t`.
proof fn lemma_closer_at_prefix(t: Seq<char>, u: Seq<char>, i: int, level: nat)
    requires
        closer_at(t, i, level),
        t.len() <= u.len(),
        forall|k: int| 0 <= k < t.len() ==> t[k] == u[k],
    ensures
        closer_prefix(u, i, level),
{
    let cl = closer(level);
    assert forall|j: int| 0 <= j < cl.len() && i + j < u.len() implies #[trigger] u[i + j]
        == cl[j] by {
        assert(t.subrange(i, i + cl.len())[j] == t[i + j]);
    }
}

/// With a character at the cursor, no closer lies inside the content read so far.
proof fn lemma_no_closer_in(raw: Seq<char>, x: char, level: nat)
    requires
        no_early_closer(raw, Some(x), level),
    ensures
        no_closer_in(raw, level),
{
    let u = raw + seq![x];
    assert forall|i: int| 0 <= i < raw.len() implies !#[trigger] closer_at(raw, i, level) by {
        if closer_at(raw, i, level) {
            assert forall|k: int| 0 <= k < raw.len() implies raw[k] == u[k] by {}
            lemma_closer_at_prefix(raw, u, i, level);
            assert(opt_seq(Some(x)) == seq![x]);
            assert(!closer_prefix(raw + opt_seq(Some(x)), i, level));
        }
    }
}

/// Content read on from `raw` with `c` first and no further `]` holds no whole closer.
proof fn lemma_no_closer_after(raw: Seq<char>, w: Seq<char>, level: nat)
    requires
        w.len() >= 1,
        no_early_closer(raw, Some(w[0]), level),
        forall|k: int| 1 <= k < w.len() ==> w[k] != ']',
    ensures
        no_closer_in(raw + w, level),
{
    let t = raw + w;
    let c = w[0];
    let cl = closer(level);
    assert forall|i: int| 0 <= i < t.len() implies !#[trigger] closer_at(t, i, level) by {
        if closer_at(t, i, level) {
            assert(t.subrange(i, i + cl.len())[0] == t[i]);
            assert(t[i] == ']');
            if i < raw.len() {
                assert forall|k: int| 0 <= k < t.len() implies t[k] == t[k] by {}
                lemma_closer_at_prefix(t, t, i, level);
                let a = raw + seq![c];
                assert forall|k: int| 0 <= k < a.len() implies a[k] == t[k] by {}
                lemma_closer_prefix_shorter(a, t, i, level);
                assert(opt_seq(Some(c)) == seq![c]);
                assert(!closer_prefix(raw + opt_seq(Some(c)), i, level));
            } else if i == raw.len() {
                let e = i + level + 1;
                assert(t.subrange(i, i + cl.len())[level as int + 1] == t[e]);
                assert(cl[level as int + 1] == ']');
                assert(t[e] == w[level as int + 1]);
            } else {
                assert(t[i] == w[i - raw.len()]);
            }
        }
    }
}

/// No closer of `level` starts inside `raw`: one found in `raw + closer(level)` starts at its end.
proof fn lemma_first_closer(raw: Seq<char>, level: nat)
    requires
        forall|i: int| 0 <= i < raw.len() ==> !closer_prefix(raw + seq![']'], i, level),
    ensures
        forall|i: int| 0 <= i < raw.len() ==> !closer_at(raw + closer(level), i, level),
{
    let cl = closer(level);
    let t = raw + cl;
    assert forall|i: int| 0 <= i < raw.len() implies !closer_at(t, i, level) by {
        if closer_at(t, i, level) {
            assert forall|j: int| 0 <= j < cl.len() && i + j < (raw + seq![']']).len() implies #[trigger] (
            raw + seq![']'])[i + j] == cl[j] by {
                assert(t.subrange(i, i + cl.len())[j] == t[i + j]);
                if i + j < raw.len() {
                    assert(t[i + j] == raw[i + j]);
                } else {
                    assert(t[i + j] == cl[0]);
                }
            }
            assert(closer_prefix(raw + seq![']'], i, level));
        }
    }
}

/// `r` is the long-bracketed string spelled `t`: the opener of `level`, raw content, and the
/// closer of `level`; its text is the content's `long_text`.
pub open spec fn long_result(r: Option<LexToken>, t: Seq<char>, level: nat) -> bool {
    let o = opener(level).len();
    let k = closer(level).len();
    match r {
        Some(LexToken::Str(x)) => {
            &&& no_cr(x@)
            &&& t.len() >= o + k
            &&& t.take(o as int) == opener(level)
            &&& t.subrange(t.len() - k, t.len() as int) == closer(level)
            &&& x@ == long_text(t.subrange(o as int, t.len() - k))
            &&& forall|i: int|
                0 <= i < t.len() - o - k ==> !closer_at(t.skip(o as int), i, level)
        },
        _ => false,
    }
}

/// What a `[` scans to, having read `t`, with `cur` left at the cursor: a plain bracket, a long
/// string, or no token when the input ends inside a long string or a run of `=` is not closed
/// by a second `[`.
pub open spec fn bracket_result(r: Option<LexToken>, t: Seq<char>, cur: Option<char>) -> bool {
    ||| r == Some(LexToken::SquareBracketLeft) && t == seq!['['] && cur != Some('[') && cur != Some(
        '=',
    )
    ||| exists|n: nat| long_result(r, t, n)
    ||| r is None && cur is None && exists|n: nat|
        t.len() >= n + 2 && t.take(n + 2 as int) == opener(n) && no_closer_in(t.skip(n + 2 as int), n)
    ||| {
        &&& r is None
        &&& t.len() >= 2
        &&& t == seq!['['] + eq_run((t.len() - 1) as nat)
        &&& cur != Some('[')
        &&& cur != Some('=') || t.len() == MAX_LEVEL + 1
    }
}

/// For an operator that may be doubled by a second character: that character, the token for
/// the single form and the token for the double form.
pub open spec fn pair_op(c: char) -> Option<(char, LexToken, LexToken)> {
    if c == '=' {
        Some(('=', LexToken::Assign, LexToken::Equal))
    } else if c == '<' {
        Some(('=', LexToken::Less, LexToken::LessEqual))
    } else if c == '>' {
        Some(('=', LexToken::Greate, LexToken::GreateEqual))
    } else if c == ':' {
        Some((':', LexToken::MethodCall, LexToken::Label))
    } else {
        None
    }
}

/// `r` is the token for the operator starting with `c` (see `pair_op`), having read `t`, with
/// `cur` left at the cursor.
pub open spec fn pair_result(c: char, r: Option<LexToken>, t: Seq<char>, cur: Option<char>) -> bool {
    let (second, one, two) = pair_op(c)->0;
    ||| r == Some(two) && t == seq![c, second]
    ||| r == Some(one) && t == seq![c] && cur != Some(second)
}

/// What a `.` scans to, having read `t`, with `cur` left at the cursor: `...`, `..`, a number
/// when a digit follows, else a lone `.`.
pub open spec fn dot_result(r: Option<LexToken>, t: Seq<char>, cur: Option<char>) -> bool {
    ||| r == Some(LexToken::Dots) && t == seq!['.', '.', '.']
    ||| r == Some(LexToken::Concat) && t == seq!['.', '.'] && cur != Some('.')
    ||| r == Some(LexToken::Dot) && t == seq!['.'] && cur != Some('.') && !(cur is Some
        && is_digit_char(cur->0))
    ||| {
        &&& t.len() >= 2
        &&& is_digit_char(t[1])
        &&& number_result(r, t)
        &&& number_run(t.skip(1))
        &&& cur is Some ==> !num_continues(t.skip(1), cur->0)
    }
}

/// The characters that can begin a token, white space or a comment.
pub open spec fn is_token_start(c: char) -> bool {
    ||| is_ident_char(c)
    ||| c == '\n' || c == '\r' || c == ' ' || c == '\t'
    ||| c == '-' || c == '[' || c == '=' || c == '<' || c == '>' || c == ':' || c == '~'
    ||| c == '\'' || c == '"' || c == '.'
    ||| single_op(c) is Some
}

/// What the token starting with `start` scans to, having read `t`, with `cur` left at the cursor.
pub open spec fn token_clauses(
    start: Option<char>,
    t: Seq<char>,
    cur: Option<char>,
    r: Option<LexToken>,
) -> bool {
    let c = start->0;
    &&& start is None ==> r == Some(LexToken::Eof) && t.len() == 0 && cur is None
    &&& start is Some && single_op(c) is Some ==> {
        &&& r == single_op(c)
        &&& t == seq![c]
    }
    &&& start is Some && is_ident_char(c) && !is_digit_char(c) ==> {
        &&& r is Some
        &&& name_result(r->0, t)
        &&& cur is Some ==> !is_ident_char(cur->0)
    }
    &&& start is Some && is_digit_char(c) ==> {
        &&& number_result(r, t)
        &&& number_run(t)
        &&& cur is Some ==> !num_continues(t, cur->0)
    }
    &&& start is Some && pair_op(c) is Some ==> pair_result(c, r, t, cur)
    &&& start == Some('.') ==> dot_result(r, t, cur)
    &&& start == Some('-') ==> {
        ||| r == Some(LexToken::Sub) && t == seq!['-'] && cur != Some('-')
        ||| t.len() >= 2 && t[0] == '-' && t[1] == '-'
    }
    &&& start == Some('[') ==> bracket_result(r, t, cur)
    &&& start == Some('~') ==> {
        ||| r == Some(LexToken::NotEqual) && t == seq!['~', '=']
        ||| r is None && t == seq!['~'] && cur != Some('=')
    }
    &&& start == Some('\'') || start == Some('"') ==> {
        &&& string_result(r, t, c)
        &&& r is None ==> string_failure(t, cur, c)
    }
    &&& start is Some && !is_token_start(c) ==> r is None
}

/// A blank: space, tab or line-end character.
pub open spec fn is_blank(c: char) -> bool {
    c == ' ' || c == '\t' || c == '\n' || c == '\r'
}

pub open spec fn all_blank(s: Seq<char>) -> bool {
    forall|i: int| 0 <= i < s.len() ==> is_blank(#[trigger] s[i])
}

/// The character at position `k` of `t`, or `cur` just past its end.
pub open spec fn start_at(t: Seq<char>, k: int, cur: Option<char>) -> Option<char> {
    if k < t.len() {
        Some(t[k])
    } else {
        cur
    }
}

/// When the text read, `t`, begins with `k` blanks followed by the start of a token (not a
/// blank, not `-`), the result is that token's, and outside a long string the line count rose
/// by the line ends among the blanks.
pub open spec fn after_blanks(
    t: Seq<char>,
    cur: Option<char>,
    r: Option<LexToken>,
    line0: u32,
    line1: u32,
) -> bool {
    forall|k: int|
        0 <= k <= t.len() && #[trigger] all_blank(t.take(k)) && (start_at(t, k, cur) is None || (
        !is_blank(start_at(t, k, cur)->0) && start_at(t, k, cur) != Some('-'))) ==> {
            &&& token_clauses(start_at(t, k, cur), t.skip(k), cur, r)
            &&& start_at(t, k, cur) != Some('[') ==> line1 == line_after(
                line0,
                count_nl(line_fold(t.take(k)).0),
            )
        }
}

/// A blank run that a `-` ends leaves no token start after blanks alone.
proof fn lemma_blank_then_dash(t: Seq<char>, p: int, k: int, cur: Option<char>)
    requires
        0 <= p < t.len(),
        t[p] == '-',
        all_blank(t.take(p)),
        0 <= k <= t.len(),
        all_blank(t.take(k)),
    ensures
        start_at(t, k, cur) is Some,
        is_blank(start_at(t, k, cur)->0) || start_at(t, k, cur) == Some('-'),
{
    if k > p {
        assert(t.take(k)[p] == t[p]);
    } else if k < p {
        assert(t.take(p)[k] == t[k]);
    }
}

/// Blanks `b` and then a token that starts with `c`: the token starts right after the blanks.
proof fn lemma_blank_split(b: Seq<char>, t2: Seq<char>, k: int, cur: Option<char>, c: char)
    requires
        all_blank(b),
        !is_blank(c),
        c != '-',
        t2.len() > 0 ==> t2[0] == c,
        t2.len() == 0 ==> cur == Some(c),
        0 <= k <= (b + t2).len(),
        all_blank((b + t2).take(k)),
        start_at(b + t2, k, cur) is None || (!is_blank(start_at(b + t2, k, cur)->0) && start_at(
            b + t2,
            k,
            cur,
        ) != Some('-')),
    ensures
        k == b.len(),
        (b + t2).skip(k) == t2,
        (b + t2).take(k) == b,
        start_at(b + t2, k, cur) == Some(c),
{
    let t = b + t2;
    if k > b.len() {
        assert(t.take(k)[b.len() as int] == t2[0]);
    } else if k < b.len() {
        assert(t[k] == b[k]);
    }
    assert(t.skip(k) =~= t2);
    assert(t.take(k) =~= b);
}

/// Blanks and then a token: `after_blanks` holds of the token's clauses.
proof fn lemma_after_token(
    b: Seq<char>,
    t2: Seq<char>,
    cur: Option<char>,
    r: Option<LexToken>,
    line0: u32,
    line1: u32,
    c: char,
)
    requires
        all_blank(b),
        !is_blank(c),
        c != '-',
        t2.len() > 0 ==> t2[0] == c,
        t2.len() == 0 ==> cur == Some(c),
        token_clauses(Some(c), t2, cur, r),
        c != '[' ==> line1 == line_after(line0, count_nl(line_fold(b).0)),
    ensures
        after_blanks(b + t2, cur, r, line0, line1),
{
    let t = b + t2;
    assert forall|k: int|
        0 <= k <= t.len() && #[trigger] all_blank(t.take(k)) && (start_at(t, k, cur) is None || (
        !is_blank(start_at(t, k, cur)->0) && start_at(t, k, cur) != Some('-'))) implies {
        &&& token_clauses(start_at(t, k, cur), t.skip(k), cur, r)
        &&& start_at(t, k, cur) != Some('[') ==> line1 == line_after(
            line0,
            count_nl(line_fold(t.take(k)).0),
        )
    } by {
        lemma_blank_split(b, t2, k, cur, c);
    }
}

/// A `-` after blanks: `after_blanks` holds with nothing to show.
proof fn lemma_after_dash(
    t: Seq<char>,
    p: int,
    cur: Option<char>,
    r: Option<LexToken>,
    line0: u32,
    line1: u32,
)
    requires
        0 <= p < t.len(),
        t[p] == '-',
        all_blank(t.take(p)),
    ensures
        after_blanks(t, cur, r, line0, line1),
{
    assert forall|k: int|
        0 <= k <= t.len() && #[trigger] all_blank(t.take(k)) implies start_at(t, k, cur) is Some
        && (is_blank(start_at(t, k, cur)->0) || start_at(t, k, cur) == Some('-')) by {
        lemma_blank_then_dash(t, p, k, cur);
    }
}

/// Only blanks up to the end of the input: `Eof`, with the line ends among them counted.
proof fn lemma_after_eof(t: Seq<char>, line0: u32, line1: u32)
    requires
        all_blank(t),
        line1 == line_after(line0, count_nl(line_fold(t).0)),
    ensures
        after_blanks(t, None, Some(LexToken::Eof), line0, line1),
{
    assert forall|k: int|
        0 <= k <= t.len() && #[trigger] all_blank(t.take(k)) && (start_at(t, k, None) is None || (
        !is_blank(start_at(t, k, None)->0) && start_at(t, k, None) != Some('-'))) implies {
        &&& token_clauses(start_at(t, k, None), t.skip(k), None, Some(LexToken::Eof))
        &&& start_at(t, k, None) != Some('[') ==> line1 == line_after(
            line0,
            count_nl(line_fold(t.take(k)).0),
        )
    } by {
        if k < t.len() {
            assert(is_blank(t[k]));
        }
        assert(t.take(k) =~= t);
        assert(t.skip(k) =~= Seq::<char>::empty());
    }
}

/// Limit on a run of `=` in a long bracket.
pub const MAX_LEVEL: i32 = 0x2000_0000;

/// The scanner's state: the character source, the current character and the save buffer.
#[verifier::reject_recursive_types(S)]
pub struct LexStatus<S: ChunkSource> {
    more_fn: S,
    src: Vec<char>,
    pos: usize,
    ended: bool,
    buf: Vec<char>,
    chr: Option<char>,
    line_number: u32,
    read: u64,
    seen: Ghost<Seq<char>>,
    recv: Ghost<Seq<char>>,
}

impl LexStatus<NoMoreInput> {
    /// A scanner over `src` alone; call `setup` to read the first character. The source is
    /// known to hold nothing more, so it is never asked.
    pub fn new(src: &str) -> (r: Self)
        ensures
            r.wf(),
            r.cur() is None,
            r.rest() == src@,
            r.received() == src@,
            r.is_ended(),
            r.saved().len() == 0,
            r.line() == 0,
            r.seen().len() == 0,
    {
        let mut r = LexStatus::with_source(src, NoMoreInput);
        r.ended = true;
        r
    }
}

impl<S: ChunkSource> LexStatus<S> {
    /// A scanner over `src`, asking `more_fn` for text once `src` is used up.
    pub fn with_source(src: &str, more_fn: S) -> (r: Self)
        ensures
            r.wf(),
            r.cur() is None,
            r.rest() == src@,
            r.received() == src@,
            !r.is_ended(),
            r.saved().len() == 0,
            r.line() == 0,
            r.seen().len() == 0,
    {
        let text = chars_of(src);
        let r = LexStatus {
            more_fn,
            src: text,
            pos: 0,
            ended: false,
            buf: Vec::new(),
            chr: None,
            line_number: 0,
            read: 0,
            seen: Ghost(Seq::empty()),
            recv: Ghost(src@),
        };
        proof {
            assert(r.src@.skip(0) =~= r.src@);
            assert(r.seen@ + opt_seq(r.chr) + r.src@.skip(0) =~= src@);
        }
        r
    }

    /// Everything the cursor has moved past, the character under it, and what is left of the
    /// chunk make up the input received so far.
    pub proof fn lemma_input(s: &Self)
        requires
            s.wf(),
        ensures
            s.seen() + opt_seq(s.cur()) + s.rest() == s.received(),
            s.seen().len() > 0 && s.cur() is None && s.seen().len() < u64::MAX ==> s.rest().len()
                == 0,
    {
    }

    pub closed spec fn wf(&self) -> bool {
        &&& self.pos <= self.src@.len()
        &&& self.read == self.seen@.len()
        &&& self.chr is Some ==> self.read < u64::MAX
        &&& self.seen@ + opt_seq(self.chr) + self.src@.skip(self.pos as int) == self.recv@
        &&& self.seen@.len() > 0 && self.chr is None && self.read < u64::MAX ==> self.pos
            == self.src@.len()
    }

    /// All the input received so far: the first text and every chunk since, in order. Input
    /// beyond `u64::MAX` characters is not read.
    pub closed spec fn received(&self) -> Seq<char> {
        self.recv@
    }

    /// The character under the cursor; `None` at the end of the input.
    pub closed spec fn cur(&self) -> Option<char> {
        self.chr
    }

    /// The chunk being read: the first text, or the last chunk the source handed over.
    pub closed spec fn chunk(&self) -> Seq<char> {
        self.src@
    }

    /// What is left of the current chunk after the cursor.
    pub closed spec fn rest(&self) -> Seq<char> {
        self.src@.skip(self.pos as int)
    }

    /// The source has reported that no more chunks will come.
    pub closed spec fn is_ended(&self) -> bool {
        self.ended
    }

    /// The save buffer.
    pub closed spec fn saved(&self) -> Seq<char> {
        self.buf@
    }

    pub closed spec fn line(&self) -> u32 {
        self.line_number
    }

    /// Every character the cursor has moved past, in order.
    pub closed spec fn seen(&self) -> Seq<char> {
        self.seen@
    }

    /// Input is only ever added to, and not at all once the source has ended.
    pub open spec fn same_input(old: &Self, new: &Self) -> bool {
        &&& prefix_of(old.received(), new.received())
        &&& old.is_ended() ==> new.received() == old.received()
    }

    /// What moving the cursor one character does, seen from outside.
    pub open spec fn stepped(old: &Self, new: &Self) -> bool {
        &&& new.wf()
        &&& new.saved() == old.saved()
        &&& new.line() == old.line()
        &&& new.seen() == match old.cur() {
            Some(c) => old.seen().push(c),
            None => old.seen(),
        }
        &&& old.rest().len() > 0 && new.seen().len() < u64::MAX ==> {
            &&& new.cur() == Some(old.rest()[0])
            &&& new.rest() == old.rest().drop_first()
            &&& new.is_ended() == old.is_ended()
        }
        &&& old.rest().len() == 0 && old.is_ended() ==> new.cur() is None && new.rest().len()
            == 0 && new.is_ended()
        &&& old.rest().len() == 0 && !old.is_ended() && new.seen().len() < u64::MAX ==> {
            ||| new.is_ended() && new.cur() is None && new.received() == old.received()
            ||| {
                &&& !new.is_ended()
                &&& new.received() == old.received() + new.chunk()
                &&& new.chunk().len() > 0 ==> new.cur() == Some(new.chunk()[0]) && new.rest()
                    == new.chunk().drop_first()
                &&& new.chunk().len() == 0 ==> new.cur() is None
            }
        }
        &&& new.cur() is None && new.seen().len() < u64::MAX ==> new.rest().len() == 0
        &&& old.is_ended() ==> new.is_ended()
        &&& prefix_of(old.seen(), new.seen())
        &&& prefix_of(old.received(), new.received())
        &&& old.is_ended() ==> new.received() == old.received()
    }

    /// Moves the cursor to the next character. When the chunk runs out and the source has not
    /// ended, the source is asked once: a chunk it hands over is appended to the input received
    /// and read on from its start; `None` ends the input for good.
    pub fn next(&mut self) -> (r: Option<char>)
        requires
            old(self).wf(),
        ensures
            Self::stepped(old(self), final(self)),
            r == final(self).cur(),
    {
        if let Some(c) = self.chr {
            self.read = self.read + 1;
            proof {
                self.seen@ = self.seen@.push(c);
            }
        }
        proof {
            assert(self.seen@ + opt_seq(None) + self.src@.skip(self.pos as int) =~= self.recv@);
        }
        if self.read == u64::MAX {
            self.ended = true;
            self.chr = None;
        } else if self.pos < self.src.len() {
            let c = self.src[self.pos];
            proof {
                assert(self.src@.skip(self.pos + 1) =~= self.src@.skip(self.pos as int).drop_first());
                assert(self.seen@ + opt_seq(Some(c)) + self.src@.skip(self.pos + 1) =~= self.recv@);
            }
            self.pos = self.pos + 1;
            self.chr = Some(c);
        } else if self.ended {
            self.chr = None;
        } else {
            match self.more_fn.next_chunk() {
                Some(chunk) => {
                    proof {
                        self.recv@ = self.recv@ + chunk@;
                    }
                    self.src = chunk;
                    self.pos = 0;
                    if self.src.len() > 0 {
                        let c = self.src[0];
                        proof {
                            assert(self.src@.skip(1) =~= self.src@.drop_first());
                            assert(self.seen@ + opt_seq(Some(c)) + self.src@.skip(1) =~= self.recv@);
                        }
                        self.pos = 1;
                        self.chr = Some(c);
                    } else {
                        self.chr = None;
                        proof {
                            assert(self.seen@ + opt_seq(None) + self.src@.skip(0) =~= self.recv@);
                        }
                    }
                },
                None => {
                    self.ended = true;
                    self.chr = None;
                },
            }
        }
        self.chr
    }

    fn save(&mut self, c: char)
        ensures
            final(self).buf@ == old(self).buf@.push(c),
            final(self).chr == old(self).chr,
            final(self).src == old(self).src,
            final(self).pos == old(self).pos,
            final(self).ended == old(self).ended,
            final(self).line_number == old(self).line_number,
            final(self).read == old(self).read,
            final(self).seen == old(self).seen,
            final(self).recv == old(self).recv,
    {
        self.buf.push(c)
    }

    /// Saves the current character, if any, then moves the cursor.
    pub fn save_next(&mut self) -> (r: Option<char>)
        requires
            old(self).wf(),
        ensures
            final(self).wf(),
            final(self).saved() == match old(self).cur() {
                Some(c) => old(self).saved().push(c),
                None => old(self).saved(),
            },
            final(self).line() == old(self).line(),
            final(self).seen() == match old(self).cur() {
                Some(c) => old(self).seen().push(c),
                None => old(self).seen(),
            },
            old(self).rest().len() > 0 && final(self).seen().len() < u64::MAX ==> {
                &&& final(self).cur() == Some(old(self).rest()[0])
                &&& final(self).rest() == old(self).rest().drop_first()
            },
            old(self).rest().len() == 0 && old(self).is_ended() ==> final(self).cur() is None
                && final(self).is_ended(),
            old(self).is_ended() ==> final(self).is_ended(),
            Self::same_input(old(self), final(self)),
            prefix_of(old(self).seen(), final(self).seen()),
            r == final(self).cur(),
    {
        if let Some(c) = self.chr {
            self.save(c);
        }
        self.next()
    }

    pub fn current_line(&self) -> (r: u32)
        ensures
            r == self.line(),
    {
        self.line_number
    }

    /// Reads the first character.
    pub fn setup(&mut self)
        requires
            old(self).wf(),
        ensures
            Self::stepped(old(self), final(self)),
    {
        self.next();
    }

    fn is_eol(&self) -> (r: bool)
        ensures
            r == is_eol_char(self.chr),
    {
        match self.chr {
            Some(c) => c == '\n' || c == '\r',
            None => false,
        }
    }

    /// Moves past a line end: `\n`, `\r`, `\r\n` or `\n\r`, and counts the line.
    fn new_line(&mut self)
        requires
            old(self).wf(),
            is_eol_char(old(self).chr),
        ensures
            final(self).wf(),
            final(self).buf@ == old(self).buf@,
            final(self).line_number as int == if old(self).line_number < u32::MAX {
                old(self).line_number + 1
            } else {
                old(self).line_number as int
            },
            final(self).seen@.len() > old(self).seen@.len(),
            prefix_of(old(self).seen@, final(self).seen@),
            old(self).ended ==> final(self).ended,
            Self::same_input(old(self), final(self)),
            ({
                let e = old(self).chr->0;
                ||| final(self).seen@ == old(self).seen@.push(e) && !(is_eol_char(final(self).chr)
                    && final(self).chr != Some(e))
                ||| final(self).seen@.len() == old(self).seen@.len() + 2 && final(self).seen@
                    == old(self).seen@.push(e).push(final(self).seen@.last()) && is_eol_char(
                    Some(final(self).seen@.last()),
                ) && final(self).seen@.last() != e
            }),
    {
        let old_c = self.chr;
        self.next();
        if self.is_eol() && self.chr != old_c {
            self.next();
        }
        self.line_number = self.line_number.saturating_add(1);
    }

    /// Turns the save buffer into a string and empties it.
    fn buf_to_string(&mut self) -> (r: String)
        ensures
            r@ == old(self).buf@,
            final(self).buf@.len() == 0,
            final(self).chr == old(self).chr,
            final(self).src == old(self).src,
            final(self).pos == old(self).pos,
            final(self).ended == old(self).ended,
            final(self).line_number == old(self).line_number,
            final(self).read == old(self).read,
            final(self).seen == old(self).seen,
            final(self).recv == old(self).recv,
    {
        let mut s = String::new();
        let mut i: usize = 0;
        while i < self.buf.len()
            invariant
                0 <= i <= self.buf@.len(),
                s@ == self.buf@.take(i as int),
            decreases self.buf@.len() - i,
        {
            push_char(&mut s, self.buf[i]);
            proof {
                assert(self.buf@.take(i + 1) =~= self.buf@.take(i as int).push(self.buf@[i as int]));
            }
            i = i + 1;
        }
        proof {
            assert(self.buf@.take(i as int) =~= self.buf@);
        }
        self.buf.clear();
        s
    }

    /// The characters the cursor moved past between `old` and `new`.
    pub open spec fn consumed(old: &Self, new: &Self) -> Seq<char> {
        new.seen().skip(old.seen().len() as int)
    }

    fn cur_is(&self, c: char) -> (r: bool)
        ensures
            r == (self.chr == Some(c)),
    {
        match self.chr {
            Some(x) => x == c,
            None => false,
        }
    }

    /// Counts the run of `=` after a `[` or `]`. A level `n >= 0` means the run was closed by the
    /// same bracket; otherwise the result is `-n - 1`. The bracket and the run are saved.
    pub fn skip_eq(&mut self) -> (r: i32)
        requires
            old(self).wf(),
            old(self).cur() == Some('[') || old(self).cur() == Some(']'),
        ensures
            final(self).wf(),
            final(self).line() == old(self).line(),
            old(self).is_ended() ==> final(self).is_ended(),
            Self::same_input(old(self), final(self)),
            ({
                let n = if r >= 0 {
                    r as int
                } else {
                    -r - 1
                };
                &&& 0 <= n <= MAX_LEVEL
                &&& final(self).saved() == old(self).saved() + seq![old(self).cur()->0] + eq_run(
                    n as nat,
                )
                &&& final(self).seen() == old(self).seen() + seq![old(self).cur()->0] + eq_run(
                    n as nat,
                )
                &&& (r >= 0) == (final(self).cur() == old(self).cur())
                &&& final(self).cur() != Some('=') || n == MAX_LEVEL
            }),
    {
        let ghost b0 = self.buf@;
        let ghost s0 = self.seen@;
        let s = match self.chr {
            Some(x) => x,
            None => ' ',
        };
        let mut count: i32 = 0;
        self.save_next();
        proof {
            assert(eq_run(0) =~= Seq::<char>::empty());
            assert(self.buf@ =~= b0 + seq![s] + eq_run(0));
            assert(self.seen@ =~= s0 + seq![s] + eq_run(0));
        }
        while count < MAX_LEVEL && self.cur_is('=')
            invariant
                self.wf(),
                self.line_number == old(self).line_number,
                old(self).ended ==> self.ended,
                Self::same_input(old(self), self),
                0 <= count <= MAX_LEVEL,
                self.buf@ == b0 + seq![s] + eq_run(count as nat),
                self.seen@ == s0 + seq![s] + eq_run(count as nat),
            decreases u64::MAX - self.read,
        {
            self.save_next();
            proof {
                assert(eq_run((count + 1) as nat) =~= eq_run(count as nat).push('='));
                assert(self.buf@ =~= b0 + seq![s] + eq_run((count + 1) as nat));
                assert(self.seen@ =~= s0 + seq![s] + eq_run((count + 1) as nat));
            }
            count = count + 1;
        }
        if self.cur_is(s) {
            count
        } else {
            -count - 1
        }
    }

    /// Scans a numeric literal that starts at the cursor, after what is already saved, and
    /// decodes it.
    pub fn number(&mut self) -> (r: Option<LexToken>)
        requires
            old(self).wf(),
            old(self).cur() is Some,
            is_digit_char(old(self).cur()->0),
        ensures
            final(self).wf(),
            final(self).line() == old(self).line(),
            final(self).saved().len() == 0,
            final(self).seen().len() > old(self).seen().len(),
            prefix_of(old(self).seen(), final(self).seen()),
            old(self).is_ended() ==> final(self).is_ended(),
            Self::same_input(old(self), final(self)),
            Self::consumed(old(self), final(self))[0] == old(self).cur()->0,
            number_result(r, old(self).saved() + Self::consumed(old(self), final(self))),
            number_run(Self::consumed(old(self), final(self))),
            final(self).cur() is Some ==> !num_continues(
                Self::consumed(old(self), final(self)),
                final(self).cur()->0,
            ),
            final(self).cur() is Some ==> {
                &&& !is_ident_char(final(self).cur()->0)
                &&& final(self).cur()->0 != '.'
            },
    {
        let ghost b0 = self.buf@;
        let ghost s0 = self.seen@;
        let mut xp: char = 'e';
        let mut c: char = match self.chr {
            Some(x) => x,
            None => ' ',
        };
        proof {
            assert(self.seen@.skip(s0.len() as int) =~= Seq::<char>::empty());
            assert(self.buf@ =~= b0 + self.seen@.skip(s0.len() as int));
        }
        let nx = self.save_next();
        proof {
            assert(self.seen@.skip(s0.len() as int) =~= seq![c]);
            assert(self.buf@ =~= b0 + self.seen@.skip(s0.len() as int));
        }
        if c == '0' {
            if let Some(n) = nx {
                if n == 'x' || n == 'X' {
                    xp = 'p';
                }
            }
        }
        loop
            invariant
                ({
                    let t = self.seen@.skip(s0.len() as int);
                    &&& t.len() >= 1
                    &&& c == t.last()
                    &&& xp == 'e' || xp == 'p'
                    &&& t.len() >= 2 ==> xp == exp_marker(t)
                    &&& t.len() == 1 ==> (xp == 'p' <==> (t[0] == '0' && (self.chr == Some('x')
                        || self.chr == Some('X'))))
                    &&& number_run(t)
                }),
                self.wf(),
                self.line_number == old(self).line_number,
                old(self).ended ==> self.ended,
                Self::same_input(old(self), self),
                prefix_of(s0, self.seen@),
                self.seen@.len() > s0.len(),
                self.seen@[s0.len() as int] == old(self).chr->0,
                self.buf@ == b0 + self.seen@.skip(s0.len() as int),
            ensures
                self.chr is Some ==> !num_continues(self.seen@.skip(s0.len() as int), self.chr->0),
            decreases u64::MAX - self.read,
        {
            match self.chr {
                Some(t) => {
                    let ghost lit = self.seen@.skip(s0.len() as int);
                    if is_ident(t) || t == '.' || ((t == '-' || t == '+') && ((xp == 'e' && (c
                        == 'e' || c == 'E')) || (xp == 'p' && (c == 'p' || c == 'P')))) {
                        c = t;
                        self.save_next();
                        proof {
                            let nt = self.seen@.skip(s0.len() as int);
                            assert(nt =~= lit.push(t));
                            assert(self.buf@ =~= b0 + self.seen@.skip(s0.len() as int));
                            assert forall|i: int| 1 <= i < nt.len() implies num_continues(
                                nt.take(i),
                                #[trigger] nt[i],
                            ) by {
                                if i < lit.len() {
                                    assert(nt.take(i) =~= lit.take(i));
                                } else {
                                    assert(nt.take(i) =~= lit);
                                }
                            }
                            if lit.len() >= 2 {
                                assert(exp_marker(nt) == exp_marker(lit));
                            }
                        }
                    } else {
                        break;
                    }
                },
                None => {
                    break;
                },
            }
        }
        let value = LexNumberValue::new(&self.buf);
        self.buf.clear();
        if value.is_invalid() {
            None
        } else {
            Some(LexToken::Number(value))
        }
    }

    /// The token for the saved identifier-shaped text: a keyword, spelled exactly and in the
    /// same case, else a name; the save buffer is emptied and nothing else changes.
    pub fn name(&mut self) -> (r: LexToken)
        requires
            old(self).wf(),
        ensures
            name_result(r, old(self).saved()),
            final(self).wf(),
            final(self).saved().len() == 0,
            final(self).cur() == old(self).cur(),
            final(self).rest() == old(self).rest(),
            final(self).chunk() == old(self).chunk(),
            final(self).is_ended() == old(self).is_ended(),
            final(self).line() == old(self).line(),
            final(self).seen() == old(self).seen(),
            final(self).received() == old(self).received(),
    {
        match keyword(&self.buf) {
            Some(t) => {
                self.buf.clear();
                t
            },
            None => LexToken::Name(self.buf_to_string()),
        }
    }

    /// Decodes a quoted string whose opening delimiter is at the cursor. Escapes `\n`, `\r`
    /// and `\t` are resolved; another escape, a raw line end, or the end of the input before
    /// the closing delimiter gives no token.
    fn string(&mut self) -> (r: Option<LexToken>)
        requires
            old(self).wf(),
            old(self).cur() == Some('\'') || old(self).cur() == Some('"'),
            old(self).buf@.len() == 0,
        ensures
            final(self).wf(),
            final(self).line() == old(self).line(),
            prefix_of(old(self).seen(), final(self).seen()),
            final(self).seen().len() > old(self).seen().len(),
            old(self).is_ended() ==> final(self).is_ended(),
            Self::same_input(old(self), final(self)),
            r is Some ==> final(self).saved().len() == 0,
            string_result(r, Self::consumed(old(self), final(self)), old(self).cur()->0),
            r is None ==> string_failure(
                Self::consumed(old(self), final(self)),
                final(self).cur(),
                old(self).cur()->0,
            ),
    {
        let ghost s0 = self.seen@;
        let delim = match self.chr {
            Some(x) => x,
            None => '"',
        };
        self.next();
        let ghost mut raw: Seq<char> = Seq::empty();
        proof {
            assert(self.seen@.skip(s0.len() as int) =~= seq![delim] + raw);
        }
        loop
            invariant
                self.wf(),
                self.line_number == old(self).line_number,
                old(self).ended ==> self.ended,
                Self::same_input(old(self), self),
                s0 == old(self).seen@,
                delim == old(self).chr->0,
                delim == '\'' || delim == '"',
                prefix_of(s0, self.seen@),
                self.seen@.len() > s0.len(),
                self.seen@.skip(s0.len() as int) == seq![delim] + raw,
                decodes(raw, self.buf@, delim),
            ensures
                self.chr == Some(delim),
            decreases u64::MAX - self.read,
        {
            let ghost before = self.seen@;
            proof {
                let t = self.seen@.skip(s0.len() as int);
                assert(t.skip(1) =~= raw);
                assert(decodes(t.skip(1), self.buf@, delim));
            }
            match self.chr {
                None => {
                    return None;
                },
                Some(c) => {
                    if c == delim {
                        break;
                    } else if c == '\\' {
                        self.next();
                        proof {
                            assert(self.seen@.skip(s0.len() as int) =~= before.skip(
                                s0.len() as int,
                            ).push(c));
                        }
                        let val: char = match self.chr {
                            Some('n') => '\n',
                            Some('r') => '\r',
                            Some('t') => '\t',
                            _ => {
                                proof {
                                    let t = self.seen@.skip(s0.len() as int);
                                    assert(t.skip(1).drop_last() =~= raw);
                                    assert(decodes(t.skip(1).drop_last(), self.buf@, delim));
                                }
                                return None;
                            },
                        };
                        let ghost e = self.chr->0;
                        let ghost mid = self.seen@;
                        let ghost b0 = self.buf@;
                        self.save(val);
                        self.next();
                        proof {
                            let nraw = raw.push(c).push(e);
                            assert(self.seen@.skip(s0.len() as int) =~= mid.skip(
                                s0.len() as int,
                            ).push(e));
                            assert(self.seen@.skip(s0.len() as int) =~= seq![delim] + nraw);
                            assert(nraw.drop_last().drop_last() =~= raw);
                            assert(self.buf@.drop_last() =~= b0);
                            raw = nraw;
                        }
                    } else if c == '\n' || c == '\r' {
                        return None;
                    } else {
                        let ghost b0 = self.buf@;
                        self.save_next();
                        proof {
                            let nraw = raw.push(c);
                            assert(self.seen@.skip(s0.len() as int) =~= before.skip(
                                s0.len() as int,
                            ).push(c));
                            assert(self.seen@.skip(s0.len() as int) =~= seq![delim] + nraw);
                            assert(nraw.drop_last() =~= raw);
                            assert(self.buf@.drop_last() =~= b0);
                            raw = nraw;
                        }
                    }
                },
            }
        }
        let ghost before = self.seen@;
        self.next();
        proof {
            let t = self.seen@.skip(s0.len() as int);
            assert(t =~= before.skip(s0.len() as int).push(delim));
            assert(t.subrange(1, t.len() - 1) =~= raw);
        }
        Some(LexToken::Str(self.buf_to_string()))
    }

    /// Decodes a long-bracketed string whose opener at `level` has been read up to its second
    /// `[`, which is at the cursor. A line end right after the opener is skipped, every line end
    /// inside becomes `\n`, and the text ends at the first closer of the same level. Only the
    /// end of the input before that closer gives no token.
    #[verifier::rlimit(60)]
    fn longstring(&mut self, level: i32) -> (r: Option<LexToken>)
        requires
            old(self).wf(),
            old(self).cur() == Some('['),
            0 <= level <= MAX_LEVEL,
        ensures
            final(self).wf(),
            final(self).line() == line_after(
                old(self).line(),
                count_nl(line_fold(Self::consumed(old(self), final(self)).skip(1)).0),
            ),
            prefix_of(old(self).seen(), final(self).seen()),
            final(self).seen().len() > old(self).seen().len(),
            old(self).is_ended() ==> final(self).is_ended(),
            Self::same_input(old(self), final(self)),
            r is Some ==> final(self).saved().len() == 0,
            r is Some ==> long_result(
                r,
                seq!['['] + eq_run(level as nat) + Self::consumed(old(self), final(self)),
                level as nat,
            ),
            r is None ==> final(self).cur() is None,
            r is None ==> no_closer_in(Self::consumed(old(self), final(self)).skip(1), level as nat),
            Self::consumed(old(self), final(self)).len() >= 1,
            Self::consumed(old(self), final(self))[0] == '[',
    {
        let ghost s0 = self.seen@;
        let ghost mut raw: Seq<char> = Seq::empty();
        let ghost mut pend: Option<char> = None;
        self.buf.clear();
        self.next();
        proof {
            assert(self.seen@.skip(s0.len() as int) =~= seq!['['] + raw);
        }
        if self.is_eol() {
            let ghost e = self.chr->0;
            let ghost before = self.seen@;
            self.new_line();
            proof {
                assert(seq![e].drop_last() =~= Seq::<char>::empty());
                assert(line_fold(Seq::<char>::empty()) == (Seq::<char>::empty(), None::<char>));
                let f1 = line_fold(seq![e]);
                assert(f1 == (Seq::<char>::empty().push('\n'), Some(e)));
                assert(before.skip(s0.len() as int) =~= seq!['[']);
                assert(Seq::<char>::empty().push(e) =~= seq![e]);
                if self.seen@ == before.push(e) {
                    lemma_extend_plain(Seq::empty(), e, self.chr, level as nat);
                    raw = seq![e];
                    pend = Some(e);
                    assert(self.seen@.skip(s0.len() as int) =~= seq!['['] + raw);
                } else {
                    let e2 = self.seen@.last();
                    lemma_extend_plain(Seq::empty(), e, Some(e2), level as nat);
                    lemma_extend_plain(seq![e], e2, self.chr, level as nat);
                    assert(seq![e].push(e2) =~= seq![e, e2]);
                    raw = seq![e, e2];
                    pend = None;
                    assert(raw.drop_last() =~= seq![e]);
                    assert(line_fold(raw) == (Seq::<char>::empty().push('\n'), None::<char>));
                    assert(self.seen@.skip(s0.len() as int) =~= seq!['['] + raw);
                }
                assert(self.buf@ =~= long_text(raw));
                let one = Seq::<char>::empty().push('\n');
                assert(one.drop_last() =~= Seq::<char>::empty());
                assert(count_nl(Seq::<char>::empty()) == 0);
                assert(one.last() == '\n');
                assert(count_nl(one) == 1);
            }
        }
        proof {
            if raw.len() == 0 {
                assert(line_fold(raw).0 =~= Seq::<char>::empty());
            }
        }
        loop
            invariant
                self.wf(),
                self.line_number == line_after(old(self).line_number, count_nl(line_fold(raw).0)),
                old(self).ended ==> self.ended,
                Self::same_input(old(self), self),
                s0 == old(self).seen@,
                prefix_of(s0, self.seen@),
                self.seen@.len() > s0.len(),
                self.seen@.skip(s0.len() as int) == seq!['['] + raw,
                line_fold(raw).1 == pend,
                self.buf@ == long_text(raw),
                pend is Some ==> !(is_eol_char(self.chr) && self.chr != pend),
                raw.len() == 0 ==> !is_eol_char(self.chr),
                no_cr(self.buf@),
                no_early_closer(raw, self.chr, level as nat),
                self.chr is None ==> no_closer_in(raw, level as nat),
                0 <= level <= MAX_LEVEL,
            decreases u64::MAX - self.read,
        {
            let ghost before = self.seen@;
            match self.chr {
                None => {
                    proof {
                        assert(self.seen@.skip(s0.len() as int).skip(1) =~= raw);
                        assert(Self::consumed(old(self), self).skip(1) =~= raw);
                    }
                    return None;
                },
                Some(c) => {
                    proof {
                        assert(no_early_closer(raw, Some(c), level as nat));
                        assert(opt_seq(Some(c)) == seq![c]);
                        assert forall|i: int| 0 <= i < raw.len() implies !#[trigger] closer_prefix(
                            raw + seq![c],
                            i,
                            level as nat,
                        ) by {
                            assert(!closer_prefix(raw + opt_seq(Some(c)), i, level as nat));
                        }
                    }
                    if c == ']' {
                        let mark = self.buf.len();
                        let found = self.skip_eq();
                        if found == level {
                            self.buf.truncate(mark);
                            self.next();
                            proof {
                                let cl = closer(level as nat);
                                let op = opener(level as nat);
                                lemma_first_closer(raw, level as nat);
                                assert(self.seen@ =~= before + cl);
                                let t2 = self.seen@.skip(s0.len() as int);
                                assert(t2 =~= seq!['['] + raw + cl);
                                let t = seq!['['] + eq_run(level as nat) + t2;
                                assert(t =~= op + raw + cl);
                                assert(t.take(op.len() as int) =~= op);
                                assert(t.subrange(t.len() - cl.len(), t.len() as int) =~= cl);
                                assert(t.subrange(op.len() as int, t.len() - cl.len()) =~= raw);
                                assert(self.buf@ =~= long_text(raw));
                                assert(t.skip(op.len() as int) =~= raw + cl);
                                assert(t2.skip(1) =~= raw + cl);
                                lemma_fold_plain(raw, cl);
                                lemma_count_nl_plain(line_fold(raw).0, cl);
                            }
                            return Some(LexToken::Str(self.buf_to_string()));
                        }
                        proof {
                            let n = if found >= 0 {
                                found as int
                            } else {
                                -found - 1
                            };
                            let w = seq![']'] + eq_run(n as nat);
                            lemma_extend_run(raw, n as nat, self.chr, level as nat);
                            lemma_no_closer_after(raw, w, level as nat);
                            assert(raw + w =~= raw + seq![']'] + eq_run(n as nat));
                            lemma_long_text_plain(raw, w);
                            lemma_fold_plain(raw, w);
                            lemma_count_nl_plain(line_fold(raw).0, w);
                            assert(self.seen@ =~= before + w);
                            assert(self.seen@.skip(s0.len() as int) =~= before.skip(s0.len() as int)
                                + w);
                            raw = raw + w;
                            pend = None;
                            assert(self.seen@.skip(s0.len() as int) =~= seq!['['] + raw);
                        }
                    } else if c == '\n' || c == '\r' {
                        self.save('\n');
                        self.new_line();
                        proof {
                            lemma_fold_grows(raw);
                            let r1 = raw.push(c);
                            assert(r1.drop_last() =~= raw);
                            assert(r1[0] == raw[0]);
                            let out = line_fold(raw).0;
                            assert(line_fold(r1) == (out.push('\n'), Some(c)));
                            assert(out.push('\n').drop_last() =~= out);
                            assert(count_nl(out.push('\n')) == count_nl(out) + 1);
                            if raw[0] == '\n' || raw[0] == '\r' {
                                assert(out.push('\n').skip(1) =~= out.skip(1).push('\n'));
                            }
                            if self.seen@ == before.push(c) {
                                lemma_extend_plain(raw, c, self.chr, level as nat);
                                lemma_no_closer_after(raw, seq![c], level as nat);
                                assert(raw + seq![c] =~= r1);
                                assert(self.seen@.skip(s0.len() as int) =~= before.skip(
                                    s0.len() as int,
                                ).push(c));
                                raw = r1;
                                pend = Some(c);
                            } else {
                                let e2 = self.seen@.last();
                                let r2 = r1.push(e2);
                                lemma_extend_plain(raw, c, Some(e2), level as nat);
                                lemma_extend_plain(r1, e2, self.chr, level as nat);
                                lemma_no_closer_after(raw, seq![c, e2], level as nat);
                                assert(raw + seq![c, e2] =~= r2);
                                assert(r2.drop_last() =~= r1);
                                assert(r2[0] == raw[0]);
                                assert(line_fold(r2) == (out.push('\n'), None::<char>));
                                assert(self.seen@.skip(s0.len() as int) =~= before.skip(
                                    s0.len() as int,
                                ).push(c).push(e2));
                                raw = r2;
                                pend = None;
                            }
                            assert(self.seen@.skip(s0.len() as int) =~= seq!['['] + raw);
                            assert(self.buf@ =~= long_text(raw));
                        }
                    } else {
                        self.save_next();
                        proof {
                            assert(self.seen@.skip(s0.len() as int) =~= before.skip(
                                s0.len() as int,
                            ).push(c));
                            lemma_long_text_plain(raw, seq![c]);
                            lemma_fold_plain(raw, seq![c]);
                            lemma_count_nl_plain(line_fold(raw).0, seq![c]);
                            lemma_extend_plain(raw, c, self.chr, level as nat);
                            lemma_no_closer_after(raw, seq![c], level as nat);
                            assert(raw.push(c) =~= raw + seq![c]);
                            raw = raw + seq![c];
                            pend = None;
                            assert(self.seen@.skip(s0.len() as int) =~= seq!['['] + raw);
                        }
                    }
                },
            }
        }
    }

    /// Moves past one character and yields `t`.
    fn emit(&mut self, t: LexToken) -> (r: Option<LexToken>)
        requires
            old(self).wf(),
            old(self).cur() is Some,
        ensures
            Self::stepped(old(self), final(self)),
            Self::consumed(old(self), final(self)) == seq![old(self).cur()->0],
            r == Some(t),
    {
        let ghost s0 = self.seen@;
        self.next();
        proof {
            assert(self.seen@.skip(s0.len() as int) =~= seq![old(self).chr->0]);
        }
        Some(t)
    }

    /// Moves past one character; yields `two` if the next one is `=`-like `second` (which is
    /// consumed too), else `one`.
    fn either(&mut self, second: char, one: LexToken, two: LexToken) -> (r: Option<LexToken>)
        requires
            old(self).wf(),
            old(self).cur() is Some,
        ensures
            final(self).wf(),
            final(self).line() == old(self).line(),
            final(self).saved() == old(self).saved(),
            prefix_of(old(self).seen(), final(self).seen()),
            final(self).seen().len() > old(self).seen().len(),
            old(self).is_ended() ==> final(self).is_ended(),
            Self::same_input(old(self), final(self)),
            ({
                let t = Self::consumed(old(self), final(self));
                let c = old(self).cur()->0;
                ||| r == Some(two) && t == seq![c, second]
                ||| r == Some(one) && t == seq![c] && final(self).cur() != Some(second)
            }),
    {
        let ghost s0 = self.seen@;
        let ghost c = self.chr->0;
        self.next();
        if self.cur_is(second) {
            self.next();
            proof {
                assert(self.seen@.skip(s0.len() as int) =~= seq![c, second]);
            }
            Some(two)
        } else {
            proof {
                assert(self.seen@.skip(s0.len() as int) =~= seq![c]);
            }
            Some(one)
        }
    }

    /// Skips a comment whose `--` has been read: a long comment when a long-bracket opener follows,
    /// else the rest of the line. False when the input ends inside a long comment.
    fn skip_comment(&mut self) -> (r: bool)
        requires
            old(self).wf(),
            old(self).buf@.len() == 0,
        ensures
            final(self).wf(),
            final(self).line() >= old(self).line(),
            prefix_of(old(self).seen(), final(self).seen()),
            old(self).is_ended() ==> final(self).is_ended(),
            Self::same_input(old(self), final(self)),
            final(self).saved().len() == 0,
            !r ==> final(self).cur() is None,
    {
        if self.cur_is('[') {
            let level = self.skip_eq();
            self.buf.clear();
            if level >= 0 {
                let r = self.longstring(level);
                self.buf.clear();
                return r.is_some();
            }
        }
        while !self.is_eol() && self.chr.is_some()
            invariant
                self.wf(),
                self.line_number >= old(self).line_number,
                old(self).ended ==> self.ended,
                Self::same_input(old(self), self),
                prefix_of(old(self).seen@, self.seen@),
                self.buf@.len() == 0,
            decreases u64::MAX - self.read,
        {
            self.next();
        }
        true
    }

    /// What one scan does, from state `old` to state `new` with result `r`. The token is decided
    /// by the character at the cursor, and `consumed` is what the scan read.
    pub open spec fn scanned(old: Self, new: Self, r: Option<LexToken>) -> bool {
        let c = old.cur()->0;
        let t = Self::consumed(&old, &new);
        &&& new.wf()
        &&& new.line() >= old.line()
        &&& prefix_of(old.seen(), new.seen())
        &&& old.is_ended() ==> new.is_ended()
        &&& Self::same_input(&old, &new)
        &&& r is Some ==> new.saved().len() == 0
        &&& r is Some && r != Some(LexToken::Eof) ==> new.seen().len() > old.seen().len()
        &&& old.cur() is None ==> {
            &&& r == Some(LexToken::Eof)
            &&& new.seen() == old.seen()
            &&& new.cur() is None
            &&& new.line() == old.line()
        }
        &&& token_clauses(old.cur(), t, new.cur(), r)
    }

    /// Scans the identifier at the cursor and looks it up: a keyword, else a name.
    fn scan_name(&mut self) -> (r: LexToken)
        requires
            old(self).wf(),
            old(self).cur() is Some,
            is_ident_char(old(self).cur()->0),
            old(self).buf@.len() == 0,
        ensures
            final(self).wf(),
            final(self).line() == old(self).line(),
            prefix_of(old(self).seen(), final(self).seen()),
            final(self).seen().len() > old(self).seen().len(),
            old(self).is_ended() ==> final(self).is_ended(),
            Self::same_input(old(self), final(self)),
            final(self).saved().len() == 0,
            name_result(r, Self::consumed(old(self), final(self))),
            final(self).cur() is Some ==> !is_ident_char(final(self).cur()->0),
            Self::consumed(old(self), final(self))[0] == old(self).cur()->0,
    {
        let ghost s0 = self.seen@;
        proof {
            assert(self.seen@.skip(s0.len() as int) =~= Seq::<char>::empty());
        }
        loop
            invariant_except_break
                self.chr is Some ==> is_ident_char(self.chr->0),
            invariant
                self.wf(),
                self.line_number == old(self).line_number,
                old(self).ended ==> self.ended,
                Self::same_input(old(self), self),
                s0 == old(self).seen@,
                prefix_of(s0, self.seen@),
                self.buf@ == self.seen@.skip(s0.len() as int),
                self.chr is None ==> self.seen@.len() > s0.len(),
                self.seen@.len() > s0.len() ==> self.seen@[s0.len() as int] == old(self).chr->0,
                self.seen@.len() == s0.len() ==> self.chr == old(self).chr,
            ensures
                self.chr is Some ==> !is_ident_char(self.chr->0),
                self.seen@.len() > s0.len(),
            decreases u64::MAX - self.read,
        {
            let ghost before = self.seen@;
            let ghost cc = self.chr->0;
            if self.chr.is_none() {
                break;
            }
            self.save_next();
            proof {
                if before.len() > s0.len() {
                    assert(self.seen@[s0.len() as int] == before[s0.len() as int]);
                }
                assert(self.seen@.skip(s0.len() as int) =~= before.skip(
                    s0.len() as int,
                ).push(cc));
            }
            match self.chr {
                None => break,
                Some(x) => {
                    if !is_ident(x) {
                        break;
                    }
                },
            }
        }
self.name()
    }

    /// Scans the token that starts at the cursor, which is on neither white space, a line end
    /// nor `-`.
    #[verifier::rlimit(100)]
    #[verifier::spinoff_prover]
    fn token_at(&mut self) -> (r: Option<LexToken>)
        requires
            old(self).wf(),
            old(self).cur() is Some,
            old(self).buf@.len() == 0,
            !is_eol_char(old(self).cur()),
            old(self).cur() != Some(' '),
            old(self).cur() != Some('\t'),
            old(self).cur() != Some('-'),
        ensures
            Self::scanned(*old(self), *final(self), r),
            Self::consumed(old(self), final(self)).len() > 0 ==> Self::consumed(
                old(self),
                final(self),
            )[0] == old(self).cur()->0,
            Self::consumed(old(self), final(self)).len() == 0 ==> final(self).cur() == old(
                self,
            ).cur(),
            old(self).cur() != Some('[') ==> final(self).line() == old(self).line(),
    {
        let ghost s0 = self.seen@;
        let ghost at0 = self.seen@;
        let c = match self.chr {
            Some(c) => c,
            None => ' ',
        };
        if is_ident(c) {
            let ghost at = self.seen@;
            proof {
                assert(self.buf@ =~= Seq::<char>::empty());
            }
            if is_digit(c) {
                let r = self.number();
                proof {
                    let fin = self.seen@.skip(at.len() as int);
                    assert(Seq::<char>::empty() + fin =~= fin);
                }
                return r;
            }
            return Some(self.scan_name());
        }
        if c == '[' {
            let ghost at = self.seen@;
            let level = self.skip_eq();
            if level >= 0 {
                let ghost mid = self.seen@;
                let r = self.longstring(level);
                proof {
                    let t = self.seen@.skip(at.len() as int);
                    let t2 = self.seen@.skip(mid.len() as int);
                    assert(mid == at + seq!['['] + eq_run(level as nat));
                    assert(t =~= seq!['['] + eq_run(level as nat) + t2);
                    if r is None {
                        let n = level as nat;
                        assert(t.take(n + 2 as int) =~= opener(n));
                        assert(t.skip(n + 2 as int) =~= t2.skip(1));
                    }
                }
                return r;
            } else if level == -1 {
                self.buf.clear();
                proof {
                    assert(eq_run(0) =~= Seq::<char>::empty());
                    assert(self.seen@.skip(at.len() as int) =~= seq!['[']);
                }
                return Some(LexToken::SquareBracketLeft);
            } else {
                proof {
                    let t = self.seen@.skip(at.len() as int);
                    let n = -level - 1;
                    assert(t =~= seq!['['] + eq_run(n as nat));
                    assert(t.last() == '=');
                }
                return None;
            }
        } else if c == '=' {
            return self.either('=', LexToken::Assign, LexToken::Equal);
        } else if c == '<' {
            return self.either('=', LexToken::Less, LexToken::LessEqual);
        } else if c == '>' {
            return self.either('=', LexToken::Greate, LexToken::GreateEqual);
        } else if c == ':' {
            return self.either(':', LexToken::MethodCall, LexToken::Label);
        } else if c == '~' {
            self.next();
            if self.cur_is('=') {
                self.next();
                proof {
                    assert(self.seen@.skip(at0.len() as int) =~= seq!['~', '=']);
                }
                return Some(LexToken::NotEqual);
            }
            proof {
                assert(self.seen@.skip(at0.len() as int) =~= seq!['~']);
            }
            return None;
        } else if c == '\'' || c == '"' {
            return self.string();
        } else if c == '.' {
            let ghost at = self.seen@;
            self.save_next();
            proof {
                assert(self.seen@.skip(at.len() as int) =~= seq!['.']);
                assert(self.buf@ =~= seq!['.']);
            }
            if self.cur_is('.') {
                self.next();
                self.buf.clear();
                proof {
                    assert(self.seen@.skip(at.len() as int) =~= seq!['.', '.']);
                }
                if self.cur_is('.') {
                    self.next();
                    proof {
                        assert(self.seen@.skip(at.len() as int) =~= seq!['.', '.', '.']);
                    }
                    return Some(LexToken::Dots);
                }
                return Some(LexToken::Concat);
            }
            match self.chr {
                Some(d) => {
                    if is_digit(d) {
                        let ghost mid = self.seen@;
                        let r = self.number();
                        proof {
                            let t = self.seen@.skip(at.len() as int);
                            let u = self.seen@.skip(mid.len() as int);
                            assert(t =~= seq!['.'] + u);
                            assert(t.skip(1) =~= u);
                            assert(u[0] == d);
                            assert(t[1] == d);
                        }
                        return r;
                    }
                },
                None => {},
            }
            self.buf.clear();
            return Some(LexToken::Dot);
        } else if c == '+' {
            return self.emit(LexToken::Add);
        } else if c == '*' {
            return self.emit(LexToken::Mul);
        } else if c == '/' {
            return self.emit(LexToken::Div);
        } else if c == '%' {
            return self.emit(LexToken::Mod);
        } else {
            return None;
        }
    }

    /// Produces the next token, skipping white space and comments; `None` on a lexical error.
    /// At the end of the input it yields `Eof`, as often as it is called.
    #[verifier::rlimit(100)]
    #[verifier::spinoff_prover]
    pub fn scan(&mut self) -> (r: Option<LexToken>)
        requires
            old(self).wf(),
        ensures
            Self::scanned(*old(self), *final(self), r),
            after_blanks(
                Self::consumed(old(self), final(self)),
                final(self).cur(),
                r,
                old(self).line(),
                final(self).line(),
            ),
    {
        self.buf.clear();
        let ghost s0 = self.seen@;
        let ghost mut ws: bool = true;
        let ghost mut p: int = 0;
        proof {
            assert(self.seen@.skip(s0.len() as int) =~= Seq::<char>::empty());
            assert(line_fold(Seq::<char>::empty()).0 =~= Seq::<char>::empty());
        }
        loop
            invariant
                self.wf(),
                self.line_number >= old(self).line_number,
                old(self).ended ==> self.ended,
                Self::same_input(old(self), self),
                prefix_of(s0, self.seen@),
                s0 == old(self).seen@,
                self.buf@.len() == 0,
                self.seen@.len() == s0.len() ==> self.chr == old(self).chr
                    && self.line_number == old(self).line_number,
                old(self).chr is None ==> self.seen@.len() == s0.len(),
                old(self).chr == Some('-') && self.seen@.len() != s0.len() ==> {
                    &&& self.seen@.len() >= s0.len() + 2
                    &&& self.seen@[s0.len() as int] == '-'
                    &&& self.seen@[s0.len() + 1 as int] == '-'
                },
                self.seen@.len() != s0.len() ==> old(self).chr == Some('\n') || old(self).chr
                    == Some('\r') || old(self).chr == Some(' ') || old(self).chr == Some('\t')
                    || old(self).chr == Some('-'),
                ({
                    let t = self.seen@.skip(s0.len() as int);
                    &&& ws ==> all_blank(t)
                    &&& ws ==> self.line_number == line_after(
                        old(self).line_number,
                        count_nl(line_fold(t).0),
                    )
                    &&& ws && line_fold(t).1 is Some ==> !(is_eol_char(self.chr) && self.chr
                        != line_fold(t).1)
                    &&& !ws ==> 0 <= p < t.len() && t[p] == '-' && all_blank(t.take(p))
                }),
            decreases u64::MAX - self.read,
        {
            proof {
                if self.seen@.len() == s0.len() {
                    assert(self.seen@ =~= s0);
                }
            }
            let ghost at0 = self.seen@;
            let ghost t0 = self.seen@.skip(s0.len() as int);
            let c = match self.chr {
                None => {
                    proof {
                        let t = Self::consumed(old(self), self);
                        assert(t == t0);
                        if ws {
                            lemma_after_eof(t, old(self).line_number, self.line_number);
                        } else {
                            lemma_after_dash(t, p, self.chr, Some(LexToken::Eof), old(self).line_number, self.line_number);
                        }
                    }
                    return Some(LexToken::Eof);
                },
                Some(c) => c,
            };
            if c == '\n' || c == '\r' {
                self.new_line();
                proof {
                    let t = self.seen@.skip(s0.len() as int);
                    if ws {
                        let out = line_fold(t0).0;
                        let r1 = t0.push(c);
                        assert(r1.drop_last() =~= t0);
                        assert(line_fold(r1) == (out.push('\n'), Some(c)));
                        assert(out.push('\n').drop_last() =~= out);
                        if self.seen@ == at0.push(c) {
                            assert(t =~= r1);
                        } else {
                            let e2 = self.seen@.last();
                            let r2 = r1.push(e2);
                            assert(r2.drop_last() =~= r1);
                            assert(t =~= r2);
                            assert(line_fold(r2) == (out.push('\n'), None::<char>));
                        }
                    } else {
                        assert(t.take(p) =~= t0.take(p));
                        assert(t[p] == t0[p]);
                    }
                }
            } else if c == ' ' || c == '\t' {
                self.next();
                proof {
                    let t = self.seen@.skip(s0.len() as int);
                    assert(t =~= t0 + seq![c]);
                    if ws {
                        lemma_fold_plain(t0, seq![c]);
                        lemma_count_nl_plain(line_fold(t0).0, seq![c]);
                    } else {
                        assert(t.take(p) =~= t0.take(p));
                        assert(t[p] == t0[p]);
                    }
                }
            } else if c == '-' {
                self.next();
                proof {
                    if ws {
                        p = t0.len() as int;
                        ws = false;
                    }
                    let t = self.seen@.skip(s0.len() as int);
                    assert(t =~= t0 + seq!['-']);
                    assert(t.take(p) =~= t0.take(p));
                    assert(t[p] == '-');
                }
                if !self.cur_is('-') {
                    proof {
                        if at0.len() == s0.len() {
                            assert(self.seen@.skip(s0.len() as int) =~= seq!['-']);
                        }
                        let t = Self::consumed(old(self), self);
                        lemma_after_dash(t, p, self.chr, Some(LexToken::Sub), old(self).line_number, self.line_number);
                    }
                    return Some(LexToken::Sub);
                }
                let ghost one = self.seen@;
                self.next();
                proof {
                    if at0.len() == s0.len() {
                        assert(one == at0.push('-'));
                        assert(self.seen@ == one.push('-'));
                        assert(self.seen@[s0.len() as int] == '-');
                        assert(self.seen@[s0.len() + 1 as int] == '-');
                    }
                    let t = self.seen@.skip(s0.len() as int);
                    let ts = one.skip(s0.len() as int);
                    assert(t =~= ts.push('-'));
                    assert(t.take(p) =~= ts.take(p));
                    assert(t[p] == ts[p]);
                }
                let ghost two = self.seen@;
                let ok = self.skip_comment();
                proof {
                    let t = self.seen@.skip(s0.len() as int);
                    let ts = two.skip(s0.len() as int);
                    assert(t.take(p) =~= ts.take(p));
                    assert(t[p] == ts[p]);
                }
                if !ok {
                    proof {
                        let t = Self::consumed(old(self), self);
                        lemma_after_dash(t, p, self.chr, None, old(self).line_number, self.line_number);
                    }
                    return None;
                }
            } else {
                let ghost mid = *self;
                let r = self.token_at();
                proof {
                    let t = Self::consumed(old(self), self);
                    let t2 = Self::consumed(&mid, self);
                    assert(t =~= t0 + t2);
                    if ws {
                        lemma_after_token(t0, t2, self.chr, r, old(self).line_number, self.line_number, c);
                    } else {
                        assert(t.take(p) =~= t0.take(p));
                        assert(t[p] == t0[p]);
                        lemma_after_dash(t, p, self.chr, r, old(self).line_number, self.line_number);
                    }
                }
                return r;
            }
        }
    }
}
} // verus!
