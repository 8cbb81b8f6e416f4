//! Splits text into normalized terms: runs of digits, runs of word
//! characters and single symbols, lowercased, with alphabetic runs reduced
//! to their English stem.

use crate::text::{char_is_alphabetic, char_is_numeric, char_is_whitespace, lowercase_of, views};
use rust_stemmers::{Algorithm, Stemmer};
use vstd::prelude::*;

verus! {

/// The stem that the Snowball English stemmer gives for `word`.
pub uninterp spec fn english_stem(word: Seq<char>) -> Seq<char>;

/// `Stemmer::stem` of a stemmer created for `Algorithm::English`: the stem
/// is a function of the word alone.
#[verifier::external_body]
pub(crate) fn stem_english(word: &str) -> (r: String)
    ensures
        r@ == english_stem(word@),
{
    Stemmer::create(Algorithm::English).stem(word).to_string()
}

/// The kinds of character that a run is made of.
#[derive(Clone, Copy, Debug, PartialEq, Eq)]
pub enum CharClass {
    Whitespace,
    Numeric,
    /// Alphabetic, numeric or an underscore.
    Word,
}

/// Whether `c` is a character of `class`.
pub open spec fn in_class(class: CharClass, c: char) -> bool {
    match class {
        CharClass::Whitespace => char_is_whitespace(c),
        CharClass::Numeric => char_is_numeric(c),
        CharClass::Word => char_is_alphabetic(c) || char_is_numeric(c) || c == '_',
    }
}

/// Where the longest run of `class` characters that starts at `from` ends.
pub open spec fn run_end(s: Seq<char>, from: int, class: CharClass) -> int
    decreases s.len() - from,
{
    if 0 <= from < s.len() && in_class(class, s[from]) {
        run_end(s, from + 1, class)
    } else {
        from
    }
}

/// Whether every character of `s` is alphabetic.
pub open spec fn all_alphabetic(s: Seq<char>) -> bool {
    forall|i: int| 0 <= i < s.len() ==> char_is_alphabetic(#[trigger] s[i])
}

/// The term that a run of digits or word characters becomes: its lowercase
/// form, stemmed when that form is alphabetic throughout.
pub open spec fn normalize(run: Seq<char>) -> Seq<char> {
    let lower = lowercase_of(run);
    if all_alphabetic(lower) {
        english_stem(lower)
    } else {
        lower
    }
}

/// The first term at or after `from`, with the position behind it; `None`
/// where only whitespace is left.
pub open spec fn token_at(s: Seq<char>, from: int) -> Option<(Seq<char>, int)> {
    let start = run_end(s, from, CharClass::Whitespace);
    let digits = run_end(s, start, CharClass::Numeric);
    let word = run_end(s, start, CharClass::Word);
    if !(0 <= start < s.len()) {
        None
    } else if digits > start {
        Some((normalize(s.subrange(start, digits)), digits))
    } else if word > start {
        Some((normalize(s.subrange(start, word)), word))
    } else {
        Some((seq![s[start]], start + 1))
    }
}

/// The terms of `s` from position `from` on.
pub open spec fn tokens_from(s: Seq<char>, from: int) -> Seq<Seq<char>>
    decreases s.len() - from,
{
    match token_at(s, from) {
        Some((term, next)) => if from < next <= s.len() {
            seq![term] + tokens_from(s, next)
        } else {
            Seq::empty()
        },
        None => Seq::empty(),
    }
}

/// The terms of the text `s`, in order.
pub open spec fn tokens(s: Seq<char>) -> Seq<Seq<char>> {
    tokens_from(s, 0)
}

/// A run ends between its start and the end of the text, holds only
/// characters of its class, and stops at one that is not.
pub proof fn lemma_run_end(s: Seq<char>, from: int, class: CharClass)
    requires
        0 <= from <= s.len(),
    ensures
        from <= run_end(s, from, class) <= s.len(),
        forall|i: int| from <= i < run_end(s, from, class) ==> in_class(class, #[trigger] s[i]),
        run_end(s, from, class) < s.len() ==> !in_class(class, s[run_end(s, from, class)]),
    decreases s.len() - from,
{
    if from < s.len() && in_class(class, s[from]) {
        lemma_run_end(s, from + 1, class);
    }
}

/// A term, where there is one, ends behind the position it was asked from.
pub proof fn lemma_token_at_advances(s: Seq<char>, from: int)
    requires
        0 <= from <= s.len(),
    ensures
        token_at(s, from) matches Some((_, next)) ==> from < next <= s.len(),
{
    lemma_run_end(s, from, CharClass::Whitespace);
    let start = run_end(s, from, CharClass::Whitespace);
    lemma_run_end(s, start, CharClass::Numeric);
    lemma_run_end(s, start, CharClass::Word);
}

/// A run that nothing interrupts reaches the end of the text.
pub proof fn lemma_run_to_end(s: Seq<char>, from: int, class: CharClass)
    requires
        0 <= from <= s.len(),
        forall|i: int| from <= i < s.len() ==> in_class(class, #[trigger] s[i]),
    ensures
        run_end(s, from, class) == s.len(),
    decreases s.len() - from,
{
    if from < s.len() {
        lemma_run_to_end(s, from + 1, class);
    }
}

/// Text that the tokenizer reads as one run: it starts with no whitespace
/// and is made of digits only, or of word characters of which the first is
/// no digit.
pub open spec fn is_single_run(t: Seq<char>) -> bool {
    &&& t.len() > 0
    &&& !char_is_whitespace(t[0])
    &&& {
        ||| forall|i: int| 0 <= i < t.len() ==> in_class(CharClass::Numeric, #[trigger] t[i])
        ||| {
            &&& !in_class(CharClass::Numeric, t[0])
            &&& forall|i: int| 0 <= i < t.len() ==> in_class(CharClass::Word, #[trigger] t[i])
        }
    }
}

/// Text that is one character which is neither whitespace nor part of any
/// run.
pub open spec fn is_symbol(t: Seq<char>) -> bool {
    &&& t.len() == 1
    &&& !char_is_whitespace(t[0])
    &&& !in_class(CharClass::Word, t[0])
}

/// Tokenizing is idempotent on normalized terms: a symbol, or a single run
/// that lowercasing and stemming leave as it is, is its own only term.
pub proof fn lemma_tokens_of_normalized_term(t: Seq<char>)
    requires
        is_symbol(t) || (is_single_run(t) && normalize(t) == t),
    ensures
        tokens(t) == seq![t],
{
    assert(t.subrange(0, t.len() as int) == t);
    assert(tokens_from(t, t.len() as int) == Seq::<Seq<char>>::empty());
    if is_symbol(t) {
        assert(seq![t[0]] == t);
    } else if forall|i: int| 0 <= i < t.len() ==> in_class(CharClass::Numeric, #[trigger] t[i]) {
        lemma_run_to_end(t, 0, CharClass::Numeric);
    } else {
        lemma_run_to_end(t, 0, CharClass::Word);
    }
}

fn char_in_class(class: CharClass, c: char) -> (r: bool)
    ensures
        r == in_class(class, c),
{
    match class {
        CharClass::Whitespace => c.is_whitespace(),
        CharClass::Numeric => c.is_numeric(),
        CharClass::Word => c.is_alphanumeric() || c == '_',
    }
}

fn is_all_alphabetic(s: &Vec<char>) -> (r: bool)
    ensures
        r == all_alphabetic(s@),
{
    let mut i: usize = 0;
    while i < s.len()
        invariant
            i <= s@.len(),
            forall|j: int| 0 <= j < i ==> char_is_alphabetic(#[trigger] s@[j]),
        decreases s@.len() - i,
    {
        if !s[i].is_alphabetic() {
            return false;
        }
        i += 1;
    }
    true
}

fn chars_of(text: &str) -> (r: Vec<char>)
    ensures
        r@ == text@,
{
    let mut v: Vec<char> = Vec::new();
    for c in it: text.chars()
        invariant
            it.seq() == text@,
            v@ == it.seq().take(it.index()),
    {
        v.push(c);
    }
    v
}

fn string_of(chars: &Vec<char>, from: usize, to: usize) -> (r: String)
    requires
        from <= to <= chars@.len(),
    ensures
        r@ == chars@.subrange(from as int, to as int),
{
    let mut s = String::new();
    let mut i: usize = from;
    while i < to
        invariant
            from <= i <= to <= chars@.len(),
            s@ == chars@.subrange(from as int, i as int),
        decreases to - i,
    {
        s.push(chars[i]);
        i += 1;
    }
    s
}

/// A cursor over a text that hands out its terms one by one.
pub struct Lexer {
    chars: Vec<char>,
    pos: usize,
}

impl Lexer {
    /// The text that is being read.
    pub closed spec fn text(&self) -> Seq<char> {
        self.chars@
    }

    /// How many characters have been consumed.
    pub closed spec fn position(&self) -> int {
        self.pos as int
    }

    /// The cursor stands within the text or at its end.
    #[verifier::type_invariant]
    spec fn within(self) -> bool {
        self.pos <= self.chars@.len()
    }

    /// The terms that are still to come.
    pub open spec fn remaining(&self) -> Seq<Seq<char>> {
        tokens_from(self.text(), self.position())
    }

    /// A cursor at the start of `chars`.
    pub fn new(chars: &str) -> (r: Self)
        ensures
            r.text() == chars@,
            r.position() == 0,
            r.remaining() == tokens(chars@),
    {
        Lexer { chars: chars_of(chars), pos: 0 }
    }

    /// Consumes the longest run of `class` characters at the cursor and
    /// returns it in lowercase.
    pub fn take_while(&mut self, class: CharClass) -> (r: String)
        ensures
            final(self).text() == old(self).text(),
            0 <= old(self).position() <= final(self).position() <= old(self).text().len(),
            final(self).position() == run_end(old(self).text(), old(self).position(), class),
            r@ == lowercase_of(
                old(self).text().subrange(old(self).position(), final(self).position()),
            ),
    {
        proof {
            use_type_invariant(&*self);
        }
        let start = self.pos;
        while self.pos < self.chars.len() && char_in_class(class, self.chars[self.pos])
            invariant
                self.chars@ == old(self).chars@,
                start == old(self).pos,
                start <= self.pos <= self.chars@.len(),
                run_end(self.chars@, self.pos as int, class) == run_end(
                    self.chars@,
                    start as int,
                    class,
                ),
            decreases self.chars@.len() - self.pos,
        {
            self.pos += 1;
        }
        let run = string_of(&self.chars, start, self.pos);
        run.as_str().to_lowercase()
    }

    /// The next term, or `None` at the end of the text.
    pub fn next_token(&mut self) -> (r: Option<String>)
        ensures
            final(self).text() == old(self).text(),
            0 <= old(self).position() <= final(self).position() <= old(self).text().len(),
            match token_at(old(self).text(), old(self).position()) {
                Some((term, next)) => r matches Some(t) && t@ == term && final(self).position()
                    == next,
                None => r is None && final(self).position() == old(self).text().len(),
            },
            match r {
                Some(t) => old(self).remaining() == seq![t@] + final(self).remaining(),
                None => old(self).remaining().len() == 0 && final(self).remaining().len() == 0,
            },
    {
        proof {
            use_type_invariant(&*self);
            lemma_token_at_advances(self.chars@, self.pos as int);
            lemma_run_end(self.chars@, self.pos as int, CharClass::Whitespace);
        }
        let _ = self.take_while(CharClass::Whitespace);
        let start = self.pos;
        proof {
            lemma_run_end(self.chars@, start as int, CharClass::Numeric);
            lemma_run_end(self.chars@, start as int, CharClass::Word);
        }
        if start >= self.chars.len() {
            proof {
                lemma_run_end(self.chars@, start as int, CharClass::Whitespace);
            }
            return None;
        }
        let digits = self.take_while(CharClass::Numeric);
        if self.pos > start {
            return Some(stem_if_alphabetic(digits));
        }
        let word = self.take_while(CharClass::Word);
        if self.pos > start {
            return Some(stem_if_alphabetic(word));
        }
        let mut symbol = String::new();
        symbol.push(self.chars[start]);
        self.pos = start + 1;
        assert(symbol@ == seq![self.chars@[start as int]]);
        Some(symbol)
    }

    /// The next term, or `None` at the end of the text.
    pub fn next(&mut self) -> (r: Option<String>)
        ensures
            final(self).text() == old(self).text(),
            0 <= old(self).position() <= final(self).position() <= old(self).text().len(),
            match r {
                Some(t) => old(self).remaining() == seq![t@] + final(self).remaining(),
                None => old(self).remaining().len() == 0 && final(self).remaining().len() == 0,
            },
    {
        self.next_token()
    }
}

/// Stems a lowercase run when all of it is alphabetic.
fn stem_if_alphabetic(lower: String) -> (r: String)
    ensures
        r@ == (if all_alphabetic(lower@) {
            english_stem(lower@)
        } else {
            lower@
        }),
{
    let chars = chars_of(lower.as_str());
    if is_all_alphabetic(&chars) {
        stem_english(lower.as_str())
    } else {
        lower
    }
}

/// All the terms of `text`, in order.
pub fn tokenize(text: &str) -> (r: Vec<String>)
    ensures
        views(r@) == tokens(text@),
{
    let mut lexer = Lexer::new(text);
    let mut terms: Vec<String> = Vec::new();
    loop
        invariant
            lexer.text() == text@,
            0 <= lexer.position() <= text@.len(),
            tokens(text@) == views(terms@) + lexer.remaining(),
        ensures
            views(terms@) == tokens(text@),
        decreases lexer.text().len() - lexer.position(),
    {
        proof {
            use_type_invariant(&lexer);
            lemma_token_at_advances(lexer.text(), lexer.position());
        }
        match lexer.next_token() {
            Some(term) => {
                let ghost done = views(terms@);
                terms.push(term);
                assert(views(terms@) == done + seq![term@]);
                assert(tokens(text@) == views(terms@) + lexer.remaining());
            },
            None => {
                break;
            },
        }
    }
    terms
}

} // verus!
