//! Streaming tokenizer: raw text to lowercased ASCII words and isolated
//! non-ASCII characters.
use vstd::prelude::*;

verus! {

/// Punctuation, quote and dash characters that are dropped from the input.
pub open spec fn is_discarded(c: char) -> bool {
    c == '`' || c == '~' || c == '!' || c == '@' || c == '#' || c == '$' || c == '%'
        || c == '^' || c == '&' || c == '*' || c == '(' || c == ')' || c == '-' || c == '='
        || c == '_' || c == '+' || c == '[' || c == ']' || c == '\\' || c == '{' || c == '}'
        || c == '|' || c == ';' || c == '"' || c == ':' || c == '\'' || c == ',' || c == '.'
        || c == '/' || c == '<' || c == '>' || c == '?' || c == '\u{2019}' || c == '\u{201C}'
        || c == '\u{2018}' || c == '\u{201D}' || c == '\u{2013}' || c == '\u{2014}'
}

/// The Unicode `White_Space` property.
pub open spec fn is_space(c: char) -> bool {
    let u = c as u32;
    (0x9 <= u && u <= 0xD) || u == 0x20 || u == 0x85 || u == 0xA0 || u == 0x1680
        || (0x2000 <= u && u <= 0x200A) || u == 0x2028 || u == 0x2029 || u == 0x202F
        || u == 0x205F || u == 0x3000
}

pub open spec fn is_ascii_char(c: char) -> bool {
    (c as u32) < 128
}

/// ASCII lowercase mapping: `A`..`Z` to `a`..`z`, everything else unchanged.
pub open spec fn lower_char(c: char) -> char {
    if 'A' <= c && c <= 'Z' {
        ((c as u32) + 32) as char
    } else {
        c
    }
}

/// Characters that accumulate into a word.
pub open spec fn is_word_char(c: char) -> bool {
    !is_discarded(c) && !is_space(c) && is_ascii_char(c)
}

/// Emits the pending word, if there is one.
pub open spec fn flush(out: Seq<Seq<char>>, buf: Seq<char>) -> Seq<Seq<char>> {
    if buf.len() > 0 {
        out.push(buf)
    } else {
        out
    }
}

/// One character of the scan: emitted tokens and the (already lowercased)
/// pending word.
pub open spec fn step(st: (Seq<Seq<char>>, Seq<char>), c: char) -> (Seq<Seq<char>>, Seq<char>) {
    if is_discarded(c) {
        st
    } else if is_space(c) {
        (flush(st.0, st.1), Seq::empty())
    } else if !is_ascii_char(c) {
        (flush(st.0, st.1).push(seq![c]), Seq::empty())
    } else {
        (st.0, st.1.push(lower_char(c)))
    }
}

/// The scan state after feeding `cs` to the state `st`.
pub open spec fn scan_from(st: (Seq<Seq<char>>, Seq<char>), cs: Seq<char>) -> (
    Seq<Seq<char>>,
    Seq<char>,
)
    decreases cs.len(),
{
    if cs.len() == 0 {
        st
    } else {
        step(scan_from(st, cs.drop_last()), cs.last())
    }
}

/// The tokens of a text.
pub open spec fn tokens_of(cs: Seq<char>) -> Seq<Seq<char>> {
    let st = scan_from((Seq::empty(), Seq::empty()), cs);
    flush(st.0, st.1)
}


/// A lowercased word: a non-empty run of lowercase word characters.
pub open spec fn is_word_token(w: Seq<char>) -> bool {
    w.len() > 0 && forall|j: int| 0 <= j < w.len() ==> is_word_char(#[trigger] w[j]) && lower_char(w[j]) == w[j]
}

/// A token made of one non-ASCII character that is neither whitespace nor
/// discarded.
pub open spec fn is_char_token(w: Seq<char>) -> bool {
    w.len() == 1 && !is_ascii_char(w[0]) && !is_discarded(w[0]) && !is_space(w[0])
}

/// Tokens joined by single spaces.
pub open spec fn join_words(ws: Seq<Seq<char>>) -> Seq<char>
    decreases ws.len(),
{
    if ws.len() == 0 {
        Seq::empty()
    } else if ws.len() == 1 {
        ws[0]
    } else {
        join_words(ws.drop_last()) + seq![' '] + ws.last()
    }
}

proof fn lemma_scan_concat(st: (Seq<Seq<char>>, Seq<char>), a: Seq<char>, b: Seq<char>)
    ensures
        scan_from(st, a + b) == scan_from(scan_from(st, a), b),
    decreases b.len(),
{
    if b.len() == 0 {
        assert(a + b =~= a);
    } else {
        lemma_scan_concat(st, a, b.drop_last());
        assert((a + b).drop_last() =~= a + b.drop_last());
        assert((a + b).last() == b.last());
    }
}

proof fn lemma_scan_word(out: Seq<Seq<char>>, buf: Seq<char>, w: Seq<char>)
    requires
        forall|j: int| 0 <= j < w.len() ==> is_word_char(#[trigger] w[j]) && lower_char(w[j]) == w[j],
    ensures
        scan_from((out, buf), w) == (out, buf + w),
    decreases w.len(),
{
    if w.len() == 0 {
        assert(buf + w =~= buf);
    } else {
        let w1 = w.drop_last();
        assert forall|j: int| 0 <= j < w1.len() implies is_word_char(#[trigger] w1[j])
            && lower_char(w1[j]) == w1[j] by {
            assert(w1[j] == w[j]);
        }
        lemma_scan_word(out, buf, w1);
        assert(is_word_char(w[w.len() - 1]));
        assert((buf + w1).push(w.last()) =~= buf + w);
    }
}

proof fn lemma_scan_one(st: (Seq<Seq<char>>, Seq<char>), c: char)
    ensures
        scan_from(st, seq![c]) == step(st, c),
{
    let one: Seq<char> = seq![c];
    assert(one.drop_last() =~= Seq::<char>::empty());
    assert(one.last() == c);
    assert(scan_from(st, one.drop_last()) == st);
}

/// The scan state after a space-joined list of tokens: the last token is
/// still pending when it is a word, and emitted when it is a character.
proof fn lemma_scan_join(ws: Seq<Seq<char>>)
    requires
        forall|i: int| 0 <= i < ws.len() ==> is_word_token(#[trigger] ws[i]) || is_char_token(ws[i]),
    ensures
        ws.len() == 0 ==> scan_from((Seq::empty(), Seq::empty()), join_words(ws)) == (
        Seq::<Seq<char>>::empty(),
        Seq::<char>::empty(),
        ),
        ws.len() > 0 && is_word_token(ws.last()) ==> scan_from(
            (Seq::empty(), Seq::empty()),
            join_words(ws),
        ) == (ws.drop_last(), ws.last()),
        ws.len() > 0 && !is_word_token(ws.last()) ==> scan_from(
            (Seq::empty(), Seq::empty()),
            join_words(ws),
        ) == (ws, Seq::<char>::empty()),
    decreases ws.len(),
{
    let e: (Seq<Seq<char>>, Seq<char>) = (Seq::empty(), Seq::empty());
    if ws.len() == 0 {
    } else {
        let last = ws.last();
        let before: (Seq<Seq<char>>, Seq<char>) = if ws.len() == 1 {
            e
        } else {
            let p = ws.drop_last();
            assert forall|i: int| 0 <= i < p.len() implies is_word_token(#[trigger] p[i])
                || is_char_token(p[i]) by {
                assert(p[i] == ws[i]);
            }
            lemma_scan_join(p);
            let sp = scan_from(e, join_words(p));
            lemma_scan_concat(e, join_words(p), seq![' ']);
            lemma_scan_one(sp, ' ');
            lemma_scan_concat(e, join_words(p) + seq![' '], last);
            assert(is_space(' '));
            assert(!is_discarded(' '));
            assert(flush(sp.0, sp.1) == p);
            (p, Seq::empty())
        };
        assert(ws.len() > 1 ==> scan_from(e, join_words(ws)) == scan_from(before, last));
        assert(ws.len() == 1 ==> join_words(ws) == last);
        assert(ws.len() == 1 ==> before.0 =~= ws.drop_last());
        assert(is_word_token(last) || is_char_token(last));
        if is_word_token(last) {
            lemma_scan_word(before.0, before.1, last);
            assert(before.1 + last =~= last);
        } else {
            assert(last =~= seq![last[0]]);
            lemma_scan_one(before, last[0]);
            assert(before.0.push(seq![last[0]]) =~= ws);
        }
    }
}

/// Tokenizing already-tokenized text, its tokens joined by single spaces,
/// gives back the same tokens.
pub proof fn law_retokenize(ws: Seq<Seq<char>>)
    requires
        forall|i: int| 0 <= i < ws.len() ==> is_word_token(#[trigger] ws[i]) || is_char_token(ws[i]),
    ensures
        tokens_of(join_words(ws)) == ws,
{
    lemma_scan_join(ws);
    if ws.len() > 0 && is_word_token(ws.last()) {
        assert(ws.drop_last().push(ws.last()) =~= ws);
    }
}


/// Emitted tokens are well formed and the pending word is lowercase word
/// characters.
pub open spec fn scan_inv(st: (Seq<Seq<char>>, Seq<char>)) -> bool {
    &&& forall|i: int| 0 <= i < st.0.len() ==> is_word_token(#[trigger] st.0[i]) || is_char_token(st.0[i])
    &&& forall|j: int| 0 <= j < st.1.len() ==> is_word_char(#[trigger] st.1[j]) && lower_char(st.1[j]) == st.1[j]
}

proof fn lemma_lower_char(c: char)
    requires
        is_word_char(c),
    ensures
        is_word_char(lower_char(c)),
        lower_char(lower_char(c)) == lower_char(c),
{
    if 'A' <= c && c <= 'Z' {
        let l = lower_char(c);
        assert(l as u32 == c as u32 + 32);
        assert('a' <= l && l <= 'z');
    }
}

proof fn lemma_scan_inv(cs: Seq<char>)
    ensures
        scan_inv(scan_from((Seq::empty(), Seq::empty()), cs)),
    decreases cs.len(),
{
    if cs.len() > 0 {
        lemma_scan_inv(cs.drop_last());
        let st = scan_from((Seq::empty(), Seq::empty()), cs.drop_last());
        let c = cs.last();
        let f = flush(st.0, st.1);
        assert(forall|i: int| 0 <= i < f.len() ==> is_word_token(#[trigger] f[i]) || is_char_token(f[i])) by {
            assert forall|i: int| 0 <= i < f.len() implies is_word_token(#[trigger] f[i]) || is_char_token(f[i]) by {
                if i == st.0.len() {
                    assert(f[i] == st.1);
                }
            }
        }
        if !is_discarded(c) && !is_space(c) && !is_ascii_char(c) {
            let g = f.push(seq![c]);
            assert forall|i: int| 0 <= i < g.len() implies is_word_token(#[trigger] g[i]) || is_char_token(g[i]) by {
                if i == f.len() {
                    assert(g[i] == seq![c]);
                } else {
                    assert(g[i] == f[i]);
                }
            }
        } else if !is_discarded(c) && !is_space(c) {
            lemma_lower_char(c);
            let b = st.1.push(lower_char(c));
            assert forall|j: int| 0 <= j < b.len() implies is_word_char(#[trigger] b[j]) && lower_char(b[j]) == b[j] by {
                if j < st.1.len() {
                    assert(b[j] == st.1[j]);
                }
            }
        }
    }
}

/// Tokenizing a text, joining its tokens with single spaces and tokenizing
/// again gives the same tokens.
pub proof fn law_tokenize_idempotent(cs: Seq<char>)
    ensures
        tokens_of(join_words(tokens_of(cs))) == tokens_of(cs),
{
    lemma_scan_inv(cs);
    let st = scan_from((Seq::empty(), Seq::empty()), cs);
    let ws = tokens_of(cs);
    assert forall|i: int| 0 <= i < ws.len() implies is_word_token(#[trigger] ws[i]) || is_char_token(ws[i]) by {
        if i == st.0.len() {
            assert(ws[i] == st.1);
        }
    }
    law_retokenize(ws);
}

proof fn lemma_scan_filter(st: (Seq<Seq<char>>, Seq<char>), cs: Seq<char>)
    ensures
        scan_from(st, cs) == scan_from(st, cs.filter(|c: char| !is_discarded(c))),
    decreases cs.len(),
{
    reveal(Seq::filter);
    if cs.len() > 0 {
        lemma_scan_filter(st, cs.drop_last());
        let f = cs.drop_last().filter(|c: char| !is_discarded(c));
        if !is_discarded(cs.last()) {
            assert(f.push(cs.last()).drop_last() =~= f);
        }
    }
}

/// Discarded punctuation has no effect: removing it from the text leaves
/// the tokens unchanged.
pub proof fn law_discarded_ignored(cs: Seq<char>)
    ensures
        tokens_of(cs) == tokens_of(cs.filter(|c: char| !is_discarded(c))),
{
    lemma_scan_filter((Seq::empty(), Seq::empty()), cs);
}

/// Relies on `str::chars`: the characters of the text, in order.
#[verifier::external_body]
fn chars_of(s: &str) -> (r: Vec<char>)
    ensures
        r@ == s@,
{
    s.chars().collect()
}

/// Relies on `String::from_iter` over `char`: the string of the given characters.
#[verifier::external_body]
fn string_of(cs: &Vec<char>) -> (r: String)
    ensures
        r@ == cs@,
{
    cs.iter().collect()
}

/// Relies on `char::is_whitespace`: true exactly for `White_Space` characters.
#[verifier::external_body]
fn white_space(c: char) -> (r: bool)
    ensures
        r == is_space(c),
{
    c.is_whitespace()
}

fn discarded(c: char) -> (r: bool)
    ensures
        r == is_discarded(c),
{
    c == '`' || c == '~' || c == '!' || c == '@' || c == '#' || c == '$' || c == '%' || c == '^'
        || c == '&' || c == '*' || c == '(' || c == ')' || c == '-' || c == '=' || c == '_'
        || c == '+' || c == '[' || c == ']' || c == '\\' || c == '{' || c == '}' || c == '|'
        || c == ';' || c == '"' || c == ':' || c == '\'' || c == ',' || c == '.' || c == '/'
        || c == '<' || c == '>' || c == '?' || c == '\u{2019}' || c == '\u{201C}'
        || c == '\u{2018}' || c == '\u{201D}' || c == '\u{2013}' || c == '\u{2014}'
}

fn lowered(c: char) -> (r: char)
    requires
        is_ascii_char(c),
    ensures
        r == lower_char(c),
{
    if 'A' <= c && c <= 'Z' {
        ((c as u8) + 32) as char
    } else {
        c
    }
}


/// The views of a string sequence, after a push.
proof fn lemma_views_push(v: Seq<String>, x: String)
    ensures
        v.push(x).map_values(|t: String| t@) == v.map_values(|t: String| t@).push(x@),
{
    assert(v.push(x).map_values(|t: String| t@) =~= v.map_values(|t: String| t@).push(x@));
}

/// Where the scanner stands between two characters.
#[derive(Clone, Copy, PartialEq, Eq, Structural)]
enum State {
    Init,
    InWord,
    InWhitespace,
}

/// Splits `inp` into tokens: each maximal run of word characters, lowercased,
/// and each non-ASCII character on its own. Whitespace separates words; the
/// discarded punctuation is skipped without separating anything.
pub fn tokenize(inp: String) -> (out: Vec<String>)
    ensures
        out@.map_values(|t: String| t@) == tokens_of(inp@),
{
    let cs = chars_of(inp.as_str());
    let mut out: Vec<String> = Vec::new();
    let mut buffer: Vec<char> = Vec::new();
    let mut state = State::Init;
    let n = cs.len();
    let mut i: usize = 0;
    while i < n
        invariant
            n == cs@.len(),
            cs@ == inp@,
            i <= n,
            (out@.map_values(|t: String| t@), buffer@) == scan_from(
                (Seq::empty(), Seq::empty()),
                cs@.take(i as int),
            ),
            buffer@.len() > 0 ==> state == State::InWord,
        decreases n - i,
    {
        let c = cs[i];
        proof {
            assert(cs@.take(i + 1).drop_last() == cs@.take(i as int));
        }
        let ghost old_out = out@.map_values(|t: String| t@);
        let ghost old_buf = buffer@;
        if discarded(c) {
        } else if white_space(c) {
            if state == State::InWord {
                if buffer.len() > 0 {
                    let w = string_of(&buffer);
                    proof {
                        lemma_views_push(out@, w);
                    }
                    out.push(w);
                }
                buffer = Vec::new();
            }
            state = State::InWhitespace;
        } else if !((c as u32) < 128) {
            if state == State::InWord {
                if buffer.len() > 0 {
                    let w = string_of(&buffer);
                    proof {
                        lemma_views_push(out@, w);
                    }
                    out.push(w);
                }
                buffer = Vec::new();
            }
            let single = vec![c];
            let w = string_of(&single);
            proof {
                lemma_views_push(out@, w);
                assert(w@ =~= seq![c]);
            }
            out.push(w);
        } else {
            buffer.push(lowered(c));
            state = State::InWord;
        }
        proof {
            let next = step((old_out, old_buf), c);
            assert(out@.map_values(|t: String| t@) =~= next.0);
            assert(buffer@ =~= next.1);
        }
        i = i + 1;
    }
    if state == State::InWord {
        if buffer.len() > 0 {
            let w = string_of(&buffer);
            proof {
                lemma_views_push(out@, w);
            }
            out.push(w);
        }
    }
    proof {
        assert(cs@.take(n as int) == cs@);
        assert(out@.map_values(|t: String| t@) =~= tokens_of(inp@));
    }
    out
}

} // verus!
