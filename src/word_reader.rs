use vstd::prelude::*;

verus! {

broadcast use vstd::string::axiom_spec_iter;

/// Whether `c` counts as whitespace between words.
pub uninterp spec fn is_space(c: char) -> bool;

/// Relies on `char::is_whitespace`: whether `c` has Unicode's White_Space
/// property, a fact of the character alone.
#[verifier::external_body]
fn is_whitespace(c: char) -> (r: bool)
    ensures
        r == is_space(c),
{
    c.is_whitespace()
}

/// Relies on `String::push`: appends `c` to the end of `s`.
#[verifier::external_body]
fn push_char(s: &mut String, c: char)
    ensures
        final(s)@ == old(s)@.push(c),
{
    s.push(c)
}

/// What reading one character from the input gives.
enum CharType {
    Character(char),
    WhiteSpace,
    EOF,
}

/// The class of the next character of `s`.
spec fn char_type_of(s: Seq<char>) -> CharType {
    if s.len() == 0 {
        CharType::EOF
    } else if is_space(s[0]) {
        CharType::WhiteSpace
    } else {
        CharType::Character(s[0])
    }
}

/// The number of whitespace characters that `s` starts with.
pub open spec fn blank_len(s: Seq<char>) -> nat
    decreases s.len(),
{
    if s.len() > 0 && is_space(s[0]) {
        1 + blank_len(s.drop_first())
    } else {
        0
    }
}

/// The number of non-whitespace characters that `s` starts with.
pub open spec fn word_len(s: Seq<char>) -> nat
    decreases s.len(),
{
    if s.len() > 0 && !is_space(s[0]) {
        1 + word_len(s.drop_first())
    } else {
        0
    }
}

/// The first word of `s` and what is left after it: leading whitespace is
/// skipped, the word runs up to the next whitespace character or the end, and
/// a whitespace character that ends it is consumed too. `None` when `s` holds
/// whitespace only.
pub open spec fn next_word(s: Seq<char>) -> Option<(Seq<char>, Seq<char>)> {
    let t = s.skip(blank_len(s) as int);
    if t.len() == 0 {
        None
    } else {
        let n = word_len(t) as int;
        Some((t.take(n), if n < t.len() { t.skip(n + 1) } else { t.skip(n) }))
    }
}

/// The leading whitespace of `s` lies within `s`.
pub proof fn lemma_blank_len_bound(s: Seq<char>)
    ensures
        blank_len(s) <= s.len(),
    decreases s.len(),
{
    if s.len() > 0 && is_space(s[0]) {
        lemma_blank_len_bound(s.drop_first());
    }
}

/// The leading word of `s` lies within `s`.
pub proof fn lemma_word_len_bound(s: Seq<char>)
    ensures
        word_len(s) <= s.len(),
    decreases s.len(),
{
    if s.len() > 0 && !is_space(s[0]) {
        lemma_word_len_bound(s.drop_first());
    }
}

/// A text of whitespace only, the empty text included, holds no word: the
/// reader's first `next` gives `None`, and so does every later one.
pub proof fn lemma_blank_text_has_no_word(s: Seq<char>)
    requires
        forall|i: int| 0 <= i < s.len() ==> is_space(#[trigger] s[i]),
    ensures
        next_word(s) is None,
    decreases s.len(),
{
    if s.len() > 0 {
        assert forall|i: int| 0 <= i < s.drop_first().len() implies is_space(#[trigger] s.drop_first()[i]) by {
            assert(s.drop_first()[i] == s[i + 1]);
        }
        lemma_blank_text_has_no_word(s.drop_first());
        assert(s.drop_first().skip(blank_len(s.drop_first()) as int).len() == 0);
        lemma_blank_len_bound(s.drop_first());
    }
}

/// A reader that yields the whitespace-separated words of a text, one at a
/// time, until its end.
pub struct WordReader {
    chars: Vec<char>,
    pos: usize,
}

impl View for WordReader {
    type V = Seq<char>;

    /// The characters not yet read.
    closed spec fn view(&self) -> Seq<char> {
        self.chars@.skip(self.pos as int)
    }
}

impl WordReader {
    /// The read position lies within the text.
    pub closed spec fn well_formed(&self) -> bool {
        self.pos <= self.chars@.len()
    }

    /// Create a reader over the characters of `text`.
    pub fn new(text: &str) -> (r: WordReader)
        ensures
            r.well_formed(),
            r@ == text@,
    {
        let mut chars: Vec<char> = Vec::new();
        for c in it: text.chars()
            invariant
                it.seq() == text@,
                chars@ == it.seq().take(it.index() as int),
        {
            chars.push(c);
        }
        assert(chars@ =~= text@.skip(0));
        WordReader { chars, pos: 0 }
    }

    fn read_char(&mut self) -> (r: CharType)
        requires
            old(self).well_formed(),
        ensures
            final(self).well_formed(),
            r == char_type_of(old(self)@),
            final(self)@ == if old(self)@.len() == 0 {
                old(self)@
            } else {
                old(self)@.drop_first()
            },
    {
        if self.pos >= self.chars.len() {
            return CharType::EOF;
        }
        let c = self.chars[self.pos];
        self.pos = self.pos + 1;
        assert(self.chars@.skip(self.pos as int) =~= old(self)@.drop_first());
        if is_whitespace(c) {
            CharType::WhiteSpace
        } else {
            CharType::Character(c)
        }
    }

    /// The next word of the text, or `None` once only whitespace is left.
    pub fn next(&mut self) -> (r: Option<String>)
        requires
            old(self).well_formed(),
        ensures
            final(self).well_formed(),
            match next_word(old(self)@) {
                None => r is None && final(self)@.len() == 0,
                Some((w, rest)) => r is Some && r->0@ == w && final(self)@ == rest,
            },
    {
        let ghost s = self@;
        let ghost b = blank_len(s) as int;
        let ghost t = s.skip(b);
        let mut word = String::new();
        let ghost mut k: int = 0;
        proof {
            lemma_blank_len_bound(s);
        }
        // Skip the whitespace before the word.
        loop
            invariant_except_break
                self.well_formed(),
                0 <= k <= b <= s.len(),
                s == old(self)@,
                b == blank_len(s),
                t == s.skip(b),
                self@ == s.skip(k),
                blank_len(s) == k + blank_len(self@),
                word@.len() == 0,
            ensures
                self.well_formed(),
                t.len() > 0,
                self@ == t.drop_first(),
                word@ == t.take(1),
                word_len(t) == 1 + word_len(self@),
            decreases self@.len(),
        {
            let ghost cur = self@;
            match self.read_char() {
                CharType::EOF => {
                    assert(blank_len(cur) == 0);
                    assert(t =~= cur);
                    return None;
                },
                CharType::WhiteSpace => {
                    proof {
                        assert(cur.len() > 0 && is_space(cur[0]));
                        assert(blank_len(cur) == 1 + blank_len(cur.drop_first()));
                        assert(s.skip(k + 1) =~= cur.drop_first());
                        k = k + 1;
                    }
                    continue;
                },
                CharType::Character(c) => {
                    push_char(&mut word, c);
                    assert(cur.len() > 0 && !is_space(cur[0]) && cur[0] == c);
                    assert(blank_len(cur) == 0);
                    assert(k == b);
                    assert(t =~= cur);
                    assert(word@ =~= t.take(1));
                    break;
                },
            }
        }
        // Read up to whitespace or the end of the text.
        let ghost mut m: int = 1;
        proof {
            lemma_word_len_bound(t);
            assert(self@ =~= t.skip(1));
        }
        loop
            invariant_except_break
                self.well_formed(),
                s == old(self)@,
                b == blank_len(s),
                t == s.skip(b),
                1 <= m <= word_len(t),
                word_len(t) <= t.len(),
                word@ == t.take(m),
                self@ == t.skip(m),
                word_len(t) == m + word_len(self@),
            ensures
                self.well_formed(),
                word@ == t.take(word_len(t) as int),
                self@ == if word_len(t) < t.len() {
                    t.skip(word_len(t) + 1int)
                } else {
                    t.skip(word_len(t) as int)
                },
            decreases self@.len(),
        {
            let ghost cur = self@;
            match self.read_char() {
                CharType::Character(c) => {
                    push_char(&mut word, c);
                    proof {
                        assert(word@ =~= t.take(m + 1));
                        assert(t.skip(m + 1) =~= cur.drop_first());
                        m = m + 1;
                    }
                },
                CharType::WhiteSpace => {
                    assert(word_len(cur) == 0);
                    assert(t.skip(m + 1) =~= cur.drop_first());
                    break;
                },
                CharType::EOF => {
                    assert(word_len(cur) == 0);
                    break;
                },
            }
        }
        Some(word)
    }
}

} // verus!
