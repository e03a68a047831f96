//! Splits the source into lines and each line into tokens.
use vstd::prelude::*;
use vstd::string::*;

use crate::error::LexError;
use crate::text::{byte_len, is_white_space, lemma_byte_len_add, lemma_byte_len_push, utf8_width, white_space};
use crate::token::{Pos, Spanned, Token};

verus! {

/// Index of the first `c` in `s`, or the length of `s` if there is none.
pub open spec fn first_index(s: Seq<char>, c: char) -> nat
    decreases s.len(),
{
    if s.len() == 0 {
        0
    } else if s[0] == c {
        0
    } else {
        1 + first_index(s.drop_first(), c)
    }
}

/// `s` without one trailing carriage return.
pub open spec fn strip_cr(s: Seq<char>) -> Seq<char> {
    if s.len() > 0 && s.last() == '\r' {
        s.drop_last()
    } else {
        s
    }
}

/// The lines of a text: it is split at each `\n`, and a `\r` just before a
/// `\n` belongs to the line ending. A final line ending is optional, and an
/// empty text has no lines.
pub open spec fn split_lines(s: Seq<char>) -> Seq<Seq<char>>
    decreases s.len(),
{
    if s.len() == 0 {
        seq![]
    } else {
        let k = first_index(s, '\n');
        if k >= s.len() {
            seq![s]
        } else {
            seq![strip_cr(s.take(k as int))] + split_lines(s.skip(k + 1 as int))
        }
    }
}

/// A line without its comment: what stands before the first `#`.
pub open spec fn strip_comment(line: Seq<char>) -> Seq<char> {
    line.take(first_index(line, '#') as int)
}

/// Where the word that starts at `i` ends: the first white space at or
/// after `i`, or the end of `code`.
pub open spec fn word_end(code: Seq<char>, i: int) -> int
    decreases code.len() - i,
{
    if i < 0 || i >= code.len() || is_white_space(code[i]) {
        i
    } else {
        word_end(code, i + 1)
    }
}

/// The token that a word spells, if it spells one.
pub open spec fn keyword(w: Seq<char>) -> Option<Token> {
    if w == seq!['b', 'r', 'u', 'h', '.'] {
        Some(Token::VarA)
    } else if w == seq!['b', 'r', 'u', 'h', '!'] {
        Some(Token::VarB)
    } else if w == seq!['b', 'r', 'u', 'h', '?'] {
        Some(Token::VarC)
    } else if w == seq!['m', 'o', 'm', 'e', 'n', 't', 'u', 'm'] {
        Some(Token::Momentum)
    } else if w == seq!['m', 'o', 'm', 'e', 'n', 't'] {
        Some(Token::Moment)
    } else if w == seq!['s', 'o', 'u', 'n', 'd'] {
        Some(Token::Sound)
    } else if w == seq!['e', 'f', 'f', 'e', 'c', 't'] {
        Some(Token::Effect)
    } else {
        None
    }
}

/// A word that is no token, as plain values: line, column, the word.
pub type LexReport = (usize, usize, Seq<char>);

impl View for LexError {
    type V = LexReport;

    open spec fn view(&self) -> LexReport {
        (self.line, self.col, self.raw@)
    }
}

/// The unknown words as plain values.
pub open spec fn lex_reports(errs: Seq<LexError>) -> Seq<LexReport> {
    errs.map_values(|e: LexError| e@)
}

/// The tokens, and the words that are no token, of `code` from index `i`
/// on, on line `lineno`. Words are the maximal runs of characters that are
/// not white space; the column of a word is one more than the number of
/// bytes before it on its line.
pub open spec fn scan(code: Seq<char>, i: int, lineno: usize) -> (Seq<Spanned>, Seq<LexReport>)
    decreases code.len() - i,
{
    if i < 0 || i >= code.len() {
        (seq![], seq![])
    } else if is_white_space(code[i]) {
        scan(code, i + 1, lineno)
    } else {
        let e = word_end(code, i);
        proof {
            lemma_word_end_bounds(code, i + 1);
        }
        let col = (byte_len(code.take(i)) + 1) as usize;
        let w = code.subrange(i, e);
        let rest = scan(code, e, lineno);
        match keyword(w) {
            Some(t) => (seq![Spanned { tok: t, pos: Pos { line: lineno, col } }] + rest.0, rest.1),
            None => (rest.0, seq![(lineno, col, w)] + rest.1),
        }
    }
}

/// The tokens and unknown words of line `lineno`.
pub open spec fn lex_line_spec(line: Seq<char>, lineno: usize) -> (Seq<Spanned>, Seq<LexReport>) {
    scan(strip_comment(line), 0, lineno)
}

/// The tokens of each of the lines, and the unknown words of all of them in
/// order; lines are numbered from 1.
pub open spec fn lex_lines(lines: Seq<Seq<char>>) -> (Seq<Seq<Spanned>>, Seq<LexReport>)
    decreases lines.len(),
{
    if lines.len() == 0 {
        (seq![], seq![])
    } else {
        let prev = lex_lines(lines.drop_last());
        let cur = lex_line_spec(lines.last(), lines.len() as usize);
        (prev.0.push(cur.0), prev.1 + cur.1)
    }
}

/// The tokens of each line of the source, and its unknown words.
pub open spec fn lex_spec(src: Seq<char>) -> (Seq<Seq<Spanned>>, Seq<LexReport>) {
    lex_lines(split_lines(src))
}

pub proof fn lemma_word_end_bounds(code: Seq<char>, i: int)
    requires
        0 <= i <= code.len(),
    ensures
        i <= word_end(code, i) <= code.len(),
    decreases code.len() - i,
{
    if i < code.len() && !is_white_space(code[i]) {
        lemma_word_end_bounds(code, i + 1);
    }
}

proof fn lemma_word_chars(code: Seq<char>, i: int)
    requires
        0 <= i <= code.len(),
    ensures
        forall|m: int| i <= m < word_end(code, i) ==> !is_white_space(#[trigger] code[m]),
    decreases code.len() - i,
{
    if i < code.len() && !is_white_space(code[i]) {
        lemma_word_chars(code, i + 1);
    }
}

proof fn lemma_byte_len_take_mono(s: Seq<char>, a: int, b: int)
    requires
        0 <= a <= b <= s.len(),
    ensures
        byte_len(s.take(a)) <= byte_len(s.take(b)),
{
    lemma_byte_len_sub(s.take(b), 0, a);
    assert(s.take(b).subrange(0, a) =~= s.take(a));
}

/// Every token lies on line `lineno` at a column past `bytes_before`.
pub open spec fn tokens_after(toks: Seq<Spanned>, lineno: usize, bytes_before: nat) -> bool {
    forall|j: int|
        #![trigger toks[j]]
        0 <= j < toks.len() ==> toks[j].pos.line == lineno && toks[j].pos.col > bytes_before
}

/// The columns of the tokens strictly increase.
pub open spec fn cols_increase(toks: Seq<Spanned>) -> bool {
    forall|j: int, k: int|
        #![trigger toks[j], toks[k]]
        0 <= j < k < toks.len() ==> toks[j].pos.col < toks[k].pos.col
}

/// Every word reported is on line `lineno`, non-empty, free of white space
/// and spells no keyword.
pub open spec fn words_unknown(errs: Seq<LexReport>, lineno: usize) -> bool {
    forall|j: int|
        #![trigger errs[j]]
        0 <= j < errs.len() ==> {
            &&& errs[j].0 == lineno
            &&& errs[j].2.len() > 0
            &&& keyword(errs[j].2) is None
            &&& forall|m: int| 0 <= m < errs[j].2.len() ==> !is_white_space(#[trigger] errs[j].2[m])
        }
}

/// The words of a line from index `i` on: every token is on line `lineno`
/// at a column past the `i` first characters, the columns of the tokens
/// strictly increase, and every word that is no token is on line `lineno`,
/// non-empty, free of white space and spells no keyword.
pub proof fn lemma_scan_words(code: Seq<char>, i: int, lineno: usize)
    requires
        0 <= i <= code.len(),
        byte_len(code) <= usize::MAX,
    ensures
        tokens_after(scan(code, i, lineno).0, lineno, byte_len(code.take(i))),
        cols_increase(scan(code, i, lineno).0),
        words_unknown(scan(code, i, lineno).1, lineno),
    decreases code.len() - i,
{
    if i < code.len() {
        lemma_byte_len_take_mono(code, i, i + 1);
        assert(code.take(i + 1) =~= code.take(i).push(code[i]));
        lemma_byte_len_push(code.take(i), code[i]);
        vstd::utf8::char_is_scalar(code[i]);
        assert(byte_len(code.take(i + 1)) >= byte_len(code.take(i)) + 1);
        if is_white_space(code[i]) {
            lemma_scan_words(code, i + 1, lineno);
        } else {
            let e = word_end(code, i);
            lemma_word_end_bounds(code, i + 1);
            lemma_word_chars(code, i);
            lemma_scan_words(code, e, lineno);
            lemma_byte_len_take_mono(code, i + 1, e);
            lemma_byte_len_take_mono(code, e, code.len() as int);
            assert(code.take(code.len() as int) =~= code);
            let col = (byte_len(code.take(i)) + 1) as usize;
            assert(col == byte_len(code.take(i)) + 1);
            let w = code.subrange(i, e);
            let rest = scan(code, e, lineno);
            assert forall|m: int| 0 <= m < w.len() implies !is_white_space(#[trigger] w[m]) by {
                assert(w[m] == code[i + m]);
            }
            let toks = scan(code, i, lineno).0;
            let errs = scan(code, i, lineno).1;
            match keyword(w) {
                Some(t) => {
                    assert(toks =~= seq![Spanned { tok: t, pos: Pos { line: lineno, col } }]
                        + rest.0);
                    assert(errs == rest.1);
                    assert forall|j: int, k: int| 0 <= j < k < toks.len() implies #[trigger] toks[j].pos.col
                        < #[trigger] toks[k].pos.col by {
                        assert(toks[k] == rest.0[k - 1]);
                        if j > 0 {
                            assert(toks[j] == rest.0[j - 1]);
                        }
                    }
                    assert forall|j: int| 0 <= j < toks.len() implies #[trigger] toks[j].pos.line
                        == lineno && toks[j].pos.col > byte_len(code.take(i)) by {
                        if j > 0 {
                            assert(toks[j] == rest.0[j - 1]);
                        }
                    }
                },
                None => {
                    assert(toks == rest.0);
                    assert(errs =~= seq![(lineno, col, w)] + rest.1);
                    assert forall|j: int| 0 <= j < errs.len() implies {
                        &&& errs[j].0 == lineno
                        &&& errs[j].2.len() > 0
                        &&& keyword(errs[j].2) is None
                        &&& forall|m: int|
                            0 <= m < errs[j].2.len() ==> !is_white_space(#[trigger] errs[j].2[m])
                    } by {
                        if j > 0 {
                            assert(errs[j] == rest.1[j - 1]);
                        }
                    }
                },
            }
        }
    }
}

/// The tokens of a line come in order of strictly increasing column, all
/// on that line and at column 1 or later; every word of the line that is no
/// token is reported with the line, and is non-empty, free of white space
/// and spells no keyword.
pub proof fn lemma_line_words(line: Seq<char>, lineno: usize)
    requires
        byte_len(line) <= usize::MAX,
    ensures
        tokens_after(lex_line_spec(line, lineno).0, lineno, 0),
        cols_increase(lex_line_spec(line, lineno).0),
        words_unknown(lex_line_spec(line, lineno).1, lineno),
{
    let code = strip_comment(line);
    lemma_first_index_le(line, '#');
    crate::text::lemma_byte_len_prefix(line, first_index(line, '#') as int);
    lemma_scan_words(code, 0, lineno);
    assert(code.take(0) =~= Seq::<char>::empty());
    assert(byte_len(Seq::<char>::empty()) == 0) by {
        assert(vstd::utf8::encode_utf8(Seq::<char>::empty()) =~= Seq::<u8>::empty());
    }
}

proof fn lemma_first_index_le(s: Seq<char>, c: char)
    ensures
        first_index(s, c) <= s.len(),
    decreases s.len(),
{
    if s.len() > 0 && s[0] != c {
        lemma_first_index_le(s.drop_first(), c);
    }
}

proof fn lemma_first_index_props(s: Seq<char>, c: char)
    ensures
        first_index(s, c) <= s.len(),
        forall|m: int| 0 <= m < first_index(s, c) ==> #[trigger] s[m] != c,
        first_index(s, c) < s.len() ==> s[first_index(s, c) as int] == c,
    decreases s.len(),
{
    if s.len() > 0 && s[0] != c {
        lemma_first_index_props(s.drop_first(), c);
        assert forall|m: int| 0 <= m < first_index(s, c) implies #[trigger] s[m] != c by {
            if m > 0 {
                assert(s[m] == s.drop_first()[m - 1]);
            }
        }
    }
}

proof fn lemma_word_end_push_ws(s: Seq<char>, w: char, i: int)
    requires
        is_white_space(w),
        0 <= i <= s.len(),
    ensures
        word_end(s.push(w), i) == word_end(s, i),
    decreases s.len() - i,
{
    if i < s.len() {
        assert(s.push(w)[i] == s[i]);
        if !is_white_space(s[i]) {
            lemma_word_end_push_ws(s, w, i + 1);
        }
    } else {
        assert(s.push(w)[i] == w);
    }
}

/// White space at the end of a line changes none of its tokens or words.
pub proof fn lemma_scan_trailing_ws(s: Seq<char>, w: char, i: int, lineno: usize)
    requires
        is_white_space(w),
        0 <= i <= s.len(),
    ensures
        scan(s.push(w), i, lineno) == scan(s, i, lineno),
    decreases s.len() - i,
{
    let t = s.push(w);
    if i < s.len() {
        assert(t[i] == s[i]);
        if is_white_space(s[i]) {
            lemma_scan_trailing_ws(s, w, i + 1, lineno);
        } else {
            lemma_word_end_push_ws(s, w, i);
            lemma_word_end_bounds(s, i + 1);
            let e = word_end(s, i);
            lemma_scan_trailing_ws(s, w, e, lineno);
            assert(t.take(i) =~= s.take(i));
            assert(t.subrange(i, e) =~= s.subrange(i, e));
        }
    } else {
        assert(t[i] == w);
        assert(scan(t, i + 1, lineno) == (Seq::<Spanned>::empty(), Seq::<LexReport>::empty()));
    }
}

proof fn lemma_split_first_line(x: Seq<char>, rest: Seq<char>)
    requires
        forall|m: int| 0 <= m < x.len() ==> #[trigger] x[m] != '\n',
    ensures
        split_lines(x + seq!['\n'] + rest) == seq![strip_cr(x)] + split_lines(rest),
{
    let s = x + seq!['\n'] + rest;
    assert forall|m: int| 0 <= m < x.len() implies #[trigger] s[m] != '\n' by {
        assert(s[m] == x[m]);
    }
    assert(s[x.len() as int] == '\n');
    lemma_first_index_is(s, '\n', x.len() as int);
    assert(s.take(x.len() as int) =~= x);
    assert(s.skip(x.len() + 1 as int) =~= rest);
}

proof fn lemma_lex_lines_first(l1: Seq<char>, l2: Seq<char>, r: Seq<Seq<char>>)
    requires
        lex_line_spec(l1, 1) == lex_line_spec(l2, 1),
    ensures
        lex_lines(seq![l1] + r) == lex_lines(seq![l2] + r),
    decreases r.len(),
{
    if r.len() == 0 {
        assert(seq![l1] + r =~= seq![l1]);
        assert(seq![l2] + r =~= seq![l2]);
        assert(seq![l1].drop_last() =~= Seq::<Seq<char>>::empty());
        assert(seq![l2].drop_last() =~= Seq::<Seq<char>>::empty());
    } else {
        lemma_lex_lines_first(l1, l2, r.drop_last());
        assert((seq![l1] + r).drop_last() =~= seq![l1] + r.drop_last());
        assert((seq![l2] + r).drop_last() =~= seq![l2] + r.drop_last());
        assert((seq![l1] + r).last() == r.last());
        assert((seq![l2] + r).last() == r.last());
    }
}

/// Comments: what follows a `#` on a line never changes what the lexer
/// returns; a line `a # c` lexes as the line `a`, and so does every line
/// after it.
pub proof fn lemma_comment_ignored(a: Seq<char>, c: Seq<char>, rest: Seq<char>)
    requires
        forall|m: int| 0 <= m < a.len() ==> #[trigger] a[m] != '\n',
        forall|m: int| 0 <= m < c.len() ==> #[trigger] c[m] != '\n',
    ensures
        lex_spec(a + seq!['#'] + c + seq!['\n'] + rest) == lex_spec(a + seq!['\n'] + rest),
{
    let x = a + seq!['#'] + c;
    assert forall|m: int| 0 <= m < x.len() implies #[trigger] x[m] != '\n' by {
        if m < a.len() {
            assert(x[m] == a[m]);
        } else if m > a.len() {
            assert(x[m] == c[m - a.len() - 1]);
        }
    }
    lemma_split_first_line(x, rest);
    lemma_split_first_line(a, rest);
    let l1 = strip_cr(x);
    let l2 = strip_cr(a);
    // `a` is a prefix of both lines, up to a final carriage return of `a`
    lemma_first_index_props(a, '#');
    lemma_first_index_props(l1, '#');
    lemma_first_index_props(l2, '#');
    let k = first_index(a, '#');
    assert(l1.len() >= a.len() + 1 || l1 =~= x.drop_last()) by {
        if c.len() == 0 {
            assert(x.last() == '#');
        }
    }
    assert forall|m: int| 0 <= m < a.len() implies #[trigger] l1[m] == a[m] by {
        assert(x[m] == a[m]);
    }
    if k < a.len() {
        lemma_first_index_is(l1, '#', k as int);
        if l2.len() < a.len() {
            assert(a.last() == '\r');
            assert(k < a.len() - 1);
        }
        lemma_first_index_is(l2, '#', k as int);
        assert(strip_comment(l1) =~= strip_comment(l2));
    } else {
        assert(l1[a.len() as int] == '#') by {
            if c.len() == 0 {
                assert(l1 =~= x);
            }
            assert(x[a.len() as int] == '#');
        }
        lemma_first_index_is(l1, '#', a.len() as int);
        assert(strip_comment(l1) =~= a);
        if l2.len() == a.len() {
            lemma_first_index_is(l2, '#', a.len() as int);
            assert(strip_comment(l2) =~= a);
        } else {
            lemma_first_index_is(l2, '#', l2.len() as int);
            assert(strip_comment(l2) =~= l2);
            assert(a =~= l2.push('\r'));
            lemma_scan_trailing_ws(l2, '\r', 0, 1);
        }
    }
    lemma_lex_lines_first(l1, l2, split_lines(rest));
}

proof fn lemma_word_end_is(code: Seq<char>, i: int, j: int)
    requires
        0 <= i <= j <= code.len(),
        forall|m: int| i <= m < j ==> !is_white_space(#[trigger] code[m]),
        j == code.len() || is_white_space(code[j]),
    ensures
        word_end(code, i) == j,
    decreases j - i,
{
    if i < j {
        lemma_word_end_is(code, i + 1, j);
    }
}

proof fn lemma_first_index_is(s: Seq<char>, c: char, j: int)
    requires
        0 <= j <= s.len(),
        forall|m: int| 0 <= m < j ==> #[trigger] s[m] != c,
        j == s.len() || s[j] == c,
    ensures
        first_index(s, c) == j,
    decreases j,
{
    if j > 0 {
        lemma_first_index_is(s.drop_first(), c, j - 1);
    }
}

proof fn lemma_byte_len_sub(s: Seq<char>, a: int, b: int)
    requires
        0 <= a <= b <= s.len(),
    ensures
        byte_len(s.subrange(a, b)) <= byte_len(s),
{
    assert(s =~= s.take(a) + s.subrange(a, b) + s.skip(b));
    lemma_byte_len_add(s.take(a) + s.subrange(a, b), s.skip(b));
    lemma_byte_len_add(s.take(a), s.subrange(a, b));
}

fn matches_at(chars: &Vec<char>, i: usize, e: usize, kw: &[char]) -> (r: bool)
    requires
        i <= e <= chars@.len(),
    ensures
        r == (chars@.subrange(i as int, e as int) == kw@),
{
    if e - i != kw.len() {
        return false;
    }
    let mut j: usize = 0;
    while j < kw.len()
        invariant
            i <= e <= chars@.len(),
            e - i == kw@.len(),
            0 <= j <= kw@.len(),
            forall|m: int| 0 <= m < j ==> chars@[i + m] == kw@[m],
        decreases kw@.len() - j,
    {
        if chars[i + j] != kw[j] {
            assert(chars@.subrange(i as int, e as int)[j as int] != kw@[j as int]);
            return false;
        }
        j = j + 1;
    }
    assert(chars@.subrange(i as int, e as int) =~= kw@);
    true
}

fn keyword_at(chars: &Vec<char>, i: usize, e: usize) -> (r: Option<Token>)
    requires
        i <= e <= chars@.len(),
    ensures
        r == keyword(chars@.subrange(i as int, e as int)),
{
    let var_a: [char; 5] = ['b', 'r', 'u', 'h', '.'];
    let var_b: [char; 5] = ['b', 'r', 'u', 'h', '!'];
    let var_c: [char; 5] = ['b', 'r', 'u', 'h', '?'];
    let momentum: [char; 8] = ['m', 'o', 'm', 'e', 'n', 't', 'u', 'm'];
    let moment: [char; 6] = ['m', 'o', 'm', 'e', 'n', 't'];
    let sound: [char; 5] = ['s', 'o', 'u', 'n', 'd'];
    let effect: [char; 6] = ['e', 'f', 'f', 'e', 'c', 't'];
    assert(var_a@ == seq!['b', 'r', 'u', 'h', '.']);
    assert(var_b@ == seq!['b', 'r', 'u', 'h', '!']);
    assert(var_c@ == seq!['b', 'r', 'u', 'h', '?']);
    assert(momentum@ == seq!['m', 'o', 'm', 'e', 'n', 't', 'u', 'm']);
    assert(moment@ == seq!['m', 'o', 'm', 'e', 'n', 't']);
    assert(sound@ == seq!['s', 'o', 'u', 'n', 'd']);
    assert(effect@ == seq!['e', 'f', 'f', 'e', 'c', 't']);
    if matches_at(chars, i, e, var_a.as_slice()) {
        Some(Token::VarA)
    } else if matches_at(chars, i, e, var_b.as_slice()) {
        Some(Token::VarB)
    } else if matches_at(chars, i, e, var_c.as_slice()) {
        Some(Token::VarC)
    } else if matches_at(chars, i, e, momentum.as_slice()) {
        Some(Token::Momentum)
    } else if matches_at(chars, i, e, moment.as_slice()) {
        Some(Token::Moment)
    } else if matches_at(chars, i, e, sound.as_slice()) {
        Some(Token::Sound)
    } else if matches_at(chars, i, e, effect.as_slice()) {
        Some(Token::Effect)
    } else {
        None
    }
}

fn collect_chars(s: &str) -> (r: Vec<char>)
    ensures
        r@ == s@,
{
    let mut r: Vec<char> = Vec::new();
    for c in it: s.chars()
        invariant
            r@ == it.seq().take(it.index() as int),
            it.seq() == s@,
    {
        r.push(c);
    }
    r
}

/// Tokens of `chars[start..end]`, a line without its comment; unknown
/// words go to `errors`.
fn lex_code(
    src: &str,
    chars: &Vec<char>,
    start: usize,
    end: usize,
    lineno: usize,
    errors: &mut Vec<LexError>,
) -> (tokens: Vec<Spanned>)
    requires
        src@ == chars@,
        start <= end <= chars@.len(),
        byte_len(chars@) <= usize::MAX,
    ensures
        tokens@ == scan(chars@.subrange(start as int, end as int), 0, lineno).0,
        lex_reports(final(errors)@) == lex_reports(old(errors)@) + scan(
            chars@.subrange(start as int, end as int),
            0,
            lineno,
        ).1,
{
    let ghost code = chars@.subrange(start as int, end as int);
    let ghost errs0 = lex_reports(errors@);
    let mut tokens: Vec<Spanned> = Vec::new();
    let mut i: usize = start;
    let mut byte_off: usize = 0;
    while i < end
        invariant
            src@ == chars@,
            start <= i <= end <= chars@.len(),
            byte_len(chars@) <= usize::MAX,
            code == chars@.subrange(start as int, end as int),
            byte_off == byte_len(code.take(i - start)),
            tokens@ + scan(code, i - start, lineno).0 == scan(code, 0, lineno).0,
            lex_reports(errors@) + scan(code, i - start, lineno).1 == errs0 + scan(
                code,
                0,
                lineno,
            ).1,
        decreases end - i,
    {
        let ghost rel = i - start;
        if white_space(chars[i]) {
            proof {
                assert(code.take(rel + 1) =~= code.take(rel).push(code[rel]));
                lemma_byte_len_push(code.take(rel), code[rel]);
                lemma_byte_len_sub(chars@, start as int, i + 1);
                assert(chars@.subrange(start as int, i + 1) =~= code.take(rel + 1));
            }
            byte_off = byte_off + utf8_width(chars[i]);
            i = i + 1;
        } else {
            proof {
                assert(code.take(rel + 1) =~= code.take(rel).push(code[rel]));
                lemma_byte_len_push(code.take(rel), code[rel]);
                lemma_byte_len_sub(chars@, start as int, i + 1);
                assert(chars@.subrange(start as int, i + 1) =~= code.take(rel + 1));
                vstd::utf8::char_is_scalar(code[rel]);
            }
            let col = byte_off + 1;
            let mut e = i;
            while e < end && !white_space(chars[e])
                invariant
                    src@ == chars@,
                    start <= i <= e <= end <= chars@.len(),
                    byte_len(chars@) <= usize::MAX,
                    code == chars@.subrange(start as int, end as int),
                    byte_off == byte_len(code.take(e - start)),
                    forall|m: int| i - start <= m < e - start ==> !is_white_space(#[trigger] code[m]),
                    !is_white_space(code[i - start]),
                decreases end - e,
            {
                proof {
                    let r = e - start;
                    assert(code.take(r + 1) =~= code.take(r).push(code[r]));
                    lemma_byte_len_push(code.take(r), code[r]);
                    lemma_byte_len_sub(chars@, start as int, e + 1);
                    assert(chars@.subrange(start as int, e + 1) =~= code.take(r + 1));
                }
                byte_off = byte_off + utf8_width(chars[e]);
                e = e + 1;
            }
            proof {
                lemma_word_end_is(code, rel, e - start);
                assert(code.subrange(rel, e - start) =~= chars@.subrange(i as int, e as int));
                lemma_word_end_bounds(code, rel + 1);
            }
            let ghost rest = scan(code, e - start, lineno);
            match keyword_at(chars, i, e) {
                Some(t) => {
                    let ghost before = tokens@;
                    tokens.push(Spanned { tok: t, pos: Pos { line: lineno, col } });
                    proof {
                        assert(tokens@ + rest.0 =~= before + (seq![tokens@.last()] + rest.0));
                    }
                },
                None => {
                    let raw = String::from_str(src.substring_char(i, e));
                    let ghost before = lex_reports(errors@);
                    errors.push(LexError { line: lineno, col, raw });
                    proof {
                        assert(lex_reports(errors@) =~= before.push(errors@.last()@));
                        assert(lex_reports(errors@) + rest.1 =~= before + (seq![
                            errors@.last()@,
                        ] + rest.1));
                    }
                },
            }
            i = e;
        }
    }
    tokens
}

/// Splits `src` into lines and each line into tokens. Returns the tokens of
/// each line, in the order of the lines (empty lines included), and every
/// word that is no token.
pub fn lex(src: &str) -> (r: (Vec<Vec<Spanned>>, Vec<LexError>))
    ensures
        r.0@.map_values(|l: Vec<Spanned>| l@) == lex_spec(src@).0,
        lex_reports(r.1@) == lex_spec(src@).1,
{
    let byte_count: usize = src.as_bytes().len();
    assert(src.spec_bytes().len() == byte_count);
    let chars = collect_chars(src);
    let ghost s = chars@;
    let ghost all = split_lines(s);
    let n = chars.len();
    let mut lines: Vec<Vec<Spanned>> = Vec::new();
    let mut errors: Vec<LexError> = Vec::new();
    let mut p: usize = 0;
    let mut nl: usize = 0;
    proof {
        assert(s.skip(0) =~= s);
        assert(all =~= all.take(0) + split_lines(s.skip(0)));
    }
    while p < n
        invariant
            src@ == chars@,
            s == chars@,
            n == s.len(),
            byte_len(s) <= usize::MAX,
            0 <= nl <= p <= n,
            all == split_lines(s),
            nl <= all.len(),
            all == all.take(nl as int) + split_lines(s.skip(p as int)),
            lines@.map_values(|l: Vec<Spanned>| l@) == lex_lines(all.take(nl as int)).0,
            lex_reports(errors@) == lex_lines(all.take(nl as int)).1,
        decreases n - p,
    {
        let mut k = p;
        while k < n && chars[k] != '\n'
            invariant
                p <= k <= n,
                n == chars@.len(),
                forall|m: int| p <= m < k ==> chars@[m] != '\n',
            decreases n - k,
        {
            k = k + 1;
        }
        let line_end = if k < n && k > p && chars[k - 1] == '\r' {
            k - 1
        } else {
            k
        };
        let mut c = p;
        while c < line_end && chars[c] != '#'
            invariant
                p <= c <= line_end <= n,
                n == chars@.len(),
                forall|m: int| p <= m < c ==> chars@[m] != '#',
            decreases line_end - c,
        {
            c = c + 1;
        }
        let ghost rest = s.skip(p as int);
        let ghost line = if k < n {
            strip_cr(rest.take(k - p))
        } else {
            rest
        };
        proof {
            lemma_first_index_is(rest, '\n', k - p);
            assert(line =~= s.subrange(p as int, line_end as int));
            lemma_first_index_is(line, '#', c - p);
            assert(strip_comment(line) =~= s.subrange(p as int, c as int));
            if k < n {
                assert(rest.skip(k - p + 1) =~= s.skip(k + 1));
                assert(split_lines(rest) == seq![line] + split_lines(s.skip(k + 1)));
            } else {
                assert(split_lines(rest) == seq![line]);
                assert(s.skip(n as int) =~= Seq::<char>::empty());
            }
            assert(all[nl as int] == line);
            assert(all.take(nl + 1) =~= all.take(nl as int).push(line));
            assert(all.take(nl + 1).drop_last() =~= all.take(nl as int));
        }
        let lineno = nl + 1;
        let ghost before = lines@.map_values(|l: Vec<Spanned>| l@);
        let toks = lex_code(src, &chars, p, c, lineno, &mut errors);
        lines.push(toks);
        proof {
            assert(lines@.map_values(|l: Vec<Spanned>| l@) =~= before.push(toks@));
        }
        nl = nl + 1;
        if k < n {
            p = k + 1;
            proof {
                assert(all =~= all.take(nl as int) + split_lines(s.skip(p as int)));
            }
        } else {
            p = n;
            proof {
                assert(all =~= all.take(nl as int) + split_lines(s.skip(p as int)));
            }
        }
    }
    proof {
        assert(s.skip(p as int) =~= Seq::<char>::empty());
        assert(all.take(nl as int) =~= all);
    }
    (lines, errors)
}

} // verus!
