//! Query and document tokenization: whitespace-separated words, trimmed of
//! non-alphanumeric characters at both ends, lowercased, with stop words and
//! words holding anything but ASCII letters, digits and '-' dropped. Each
//! token keeps the index of its word as its position.
use vstd::prelude::*;

verus! {

/// Why a query could not be tokenized.
#[derive(Debug)]
pub enum TokenizationError {
    EmptyInput,
}

/// A word kept by the tokenizer, with the index of the word it came from.
#[derive(Debug)]
pub struct Token {
    pub position: u32,
    pub word: String,
}

/// The tokens of a query.
pub struct TokenizeQueryResult {
    pub unigram: Vec<Token>,
}

/// Holds the stop-word list.
#[derive(Debug, Clone)]
pub struct SearchTokenizer {
    stop_word_set: Vec<String>,
}

#[verifier::external_type_specification]
#[verifier::external_body]
pub struct ExIoError(std::io::Error);

/// What `str::split_whitespace` yields for these characters.
pub uninterp spec fn whitespace_words(s: Seq<char>) -> Seq<Seq<char>>;

/// What `char::is_alphanumeric` says of this character.
pub uninterp spec fn unicode_alphanumeric(c: char) -> bool;

/// What `str::to_lowercase` returns for these characters.
pub uninterp spec fn lowercase_of(s: Seq<char>) -> Seq<char>;

/// Relies on `str::split_whitespace`: the words between runs of Unicode
/// whitespace, in order; there are none when the text is all whitespace.
#[verifier::external_body]
fn split_words(s: &str) -> (r: Vec<String>)
    ensures
        r@.map_values(|w: String| w@) == whitespace_words(s@),
        forall|i: int| 0 <= i < r@.len() ==> (#[trigger] r@[i])@.len() > 0,
{
    s.split_whitespace().map(|w| w.to_string()).collect()
}

/// Relies on `char::is_alphanumeric`.
#[verifier::external_body]
fn is_alphanumeric(c: char) -> (r: bool)
    ensures
        r == unicode_alphanumeric(c),
{
    c.is_alphanumeric()
}

/// Relies on `str::to_lowercase`; the empty string stays empty.
#[verifier::external_body]
fn to_lowercase(s: &str) -> (r: String)
    ensures
        r@ == lowercase_of(s@),
        s@.len() == 0 ==> r@.len() == 0,
{
    s.to_lowercase()
}

/// Relies on `str::chars`: the characters of the string, in order.
#[verifier::external_body]
pub(crate) fn chars_of(s: &str) -> (r: Vec<char>)
    ensures
        r@ == s@,
{
    s.chars().collect()
}

/// Relies on collecting characters into a `String`: the same characters.
#[verifier::external_body]
pub(crate) fn string_of(chars: &[char]) -> (r: String)
    ensures
        r@ == chars@,
{
    chars.iter().collect()
}

/// The stop words.
pub open spec fn stop_words() -> Seq<Seq<char>> {
    seq![
        "a"@,
        "an"@,
        "and"@,
        "are"@,
        "as"@,
        "at"@,
        "be"@,
        "by"@,
        "for"@,
        "from"@,
        "has"@,
        "he"@,
        "in"@,
        "is"@,
        "it"@,
        "its"@,
        "of"@,
        "on"@,
        "that"@,
        "the"@,
        "to"@,
        "was"@,
        "will"@,
        "with"@,
        "the"@,
        "this"@,
        "but"@,
        "they"@,
        "have"@,
        "had"@,
        "what"@,
        "when"@,
        "where"@,
        "who"@,
        "which"@,
        "why"@,
        "how"@,
        "all"@,
        "each"@,
        "every"@,
        "both"@,
        "few"@,
        "more"@,
        "most"@,
        "other"@,
        "some"@,
        "such"@,
        "no"@,
        "nor"@,
        "not"@,
        "only"@,
        "own"@,
        "same"@,
        "so"@,
        "than"@,
        "too"@,
        "very"@,
        "can"@,
        "will"@,
        "just"@,
        "should"@,
        "now"@
    ]
}

/// `s` without the non-alphanumeric characters at its front.
pub open spec fn trim_front(s: Seq<char>) -> Seq<char>
    decreases s.len(),
{
    if s.len() > 0 && !unicode_alphanumeric(s[0]) {
        trim_front(s.drop_first())
    } else {
        s
    }
}

/// `s` without the non-alphanumeric characters at its end.
pub open spec fn trim_back(s: Seq<char>) -> Seq<char>
    decreases s.len(),
{
    if s.len() > 0 && !unicode_alphanumeric(s.last()) {
        trim_back(s.drop_last())
    } else {
        s
    }
}

/// A word trimmed of non-alphanumeric characters at both ends, lowercased.
pub open spec fn cleaned(word: Seq<char>) -> Seq<char> {
    lowercase_of(trim_back(trim_front(word)))
}

/// An ASCII letter or digit.
pub open spec fn ascii_alphanumeric(c: char) -> bool {
    ('0' <= c <= '9') || ('a' <= c <= 'z') || ('A' <= c <= 'Z')
}

/// A non-empty word of ASCII letters, digits and '-'.
pub open spec fn valid_token(s: Seq<char>) -> bool {
    s.len() > 0 && forall|i: int| 0 <= i < s.len() ==> ascii_alphanumeric(#[trigger] s[i]) || s[i]
        == '-'
}

/// Whether the cleaned word is kept as a token.
pub open spec fn kept(c: Seq<char>, stop: Seq<Seq<char>>) -> bool {
    c.len() > 0 && !stop.contains(c) && valid_token(c)
}

/// The tokens of a list of words: each kept cleaned word with its index.
pub open spec fn tokens_of(words: Seq<Seq<char>>, stop: Seq<Seq<char>>) -> Seq<(u32, Seq<char>)>
    decreases words.len(),
{
    if words.len() == 0 {
        Seq::empty()
    } else {
        let rest = tokens_of(words.drop_last(), stop);
        let c = cleaned(words.last());
        if kept(c, stop) {
            rest.push((((words.len() - 1) as int) as u32, c))
        } else {
            rest
        }
    }
}

/// The models of a list of tokens.
pub open spec fn token_view(t: Seq<Token>) -> Seq<(u32, Seq<char>)> {
    t.map_values(|k: Token| (k.position, k.word@))
}

/// The word `word` trimmed of non-alphanumeric characters at both ends, lowercased.
pub fn clean_word(word: &str) -> (r: String)
    ensures
        r@ == cleaned(word@),
{
    let chars = chars_of(word);
    let mut start: usize = 0;
    let n = chars.len();
    assert(chars@.subrange(0, n as int) =~= chars@);
    while start < n && !is_alphanumeric(chars[start])
        invariant
            start <= n == chars@.len(),
            trim_front(chars@) == trim_front(chars@.subrange(start as int, n as int)),
        decreases n - start,
    {
        assert(chars@.subrange(start as int, n as int).drop_first() =~= chars@.subrange(
            start + 1,
            n as int,
        ));
        start = start + 1;
    }
    assert(chars@.subrange(start as int, n as int) == trim_front(chars@));
    let mut end: usize = n;
    while end > start && !is_alphanumeric(chars[end - 1])
        invariant
            start <= end <= n == chars@.len(),
            trim_back(trim_front(chars@)) == trim_back(chars@.subrange(start as int, end as int)),
        decreases end - start,
    {
        assert(chars@.subrange(start as int, end as int).drop_last() =~= chars@.subrange(
            start as int,
            end - 1,
        ));
        end = end - 1;
    }
    assert(chars@.subrange(start as int, end as int) == trim_back(trim_front(chars@)));
    let trimmed = string_of(&chars.as_slice()[start..end]);
    to_lowercase(trimmed.as_str())
}

/// Whether `text` is non-empty and holds only ASCII letters, digits and '-'.
pub fn is_valid_token(text: &str) -> (r: bool)
    ensures
        r == valid_token(text@),
{
    let chars = chars_of(text);
    if chars.len() == 0 {
        return false;
    }
    let mut i: usize = 0;
    while i < chars.len()
        invariant
            i <= chars@.len(),
            chars@ == text@,
            forall|k: int| 0 <= k < i ==> ascii_alphanumeric(#[trigger] chars@[k]) || chars@[k] == '-',
        decreases chars@.len() - i,
    {
        let c = chars[i];
        if !(('0' <= c && c <= '9') || ('a' <= c && c <= 'z') || ('A' <= c && c <= 'Z') || c == '-') {
            assert(!(ascii_alphanumeric(chars@[i as int]) || chars@[i as int] == '-'));
            return false;
        }
        i = i + 1;
    }
    true
}

impl SearchTokenizer {
    /// The stop words this tokenizer drops.
    pub closed spec fn stop_list(&self) -> Seq<Seq<char>> {
        self.stop_word_set@.map_values(|w: String| w@)
    }

    pub fn new() -> (r: Result<SearchTokenizer, std::io::Error>)
        ensures
            r is Ok,
            r is Ok ==> r->Ok_0.stop_list() == stop_words(),
    {
        let mut words: Vec<String> = Vec::new();
        words.push("a".to_owned());
        words.push("an".to_owned());
        words.push("and".to_owned());
        words.push("are".to_owned());
        words.push("as".to_owned());
        words.push("at".to_owned());
        words.push("be".to_owned());
        words.push("by".to_owned());
        words.push("for".to_owned());
        words.push("from".to_owned());
        words.push("has".to_owned());
        words.push("he".to_owned());
        words.push("in".to_owned());
        words.push("is".to_owned());
        words.push("it".to_owned());
        words.push("its".to_owned());
        words.push("of".to_owned());
        words.push("on".to_owned());
        words.push("that".to_owned());
        words.push("the".to_owned());
        words.push("to".to_owned());
        words.push("was".to_owned());
        words.push("will".to_owned());
        words.push("with".to_owned());
        words.push("the".to_owned());
        words.push("this".to_owned());
        words.push("but".to_owned());
        words.push("they".to_owned());
        words.push("have".to_owned());
        words.push("had".to_owned());
        words.push("what".to_owned());
        words.push("when".to_owned());
        words.push("where".to_owned());
        words.push("who".to_owned());
        words.push("which".to_owned());
        words.push("why".to_owned());
        words.push("how".to_owned());
        words.push("all".to_owned());
        words.push("each".to_owned());
        words.push("every".to_owned());
        words.push("both".to_owned());
        words.push("few".to_owned());
        words.push("more".to_owned());
        words.push("most".to_owned());
        words.push("other".to_owned());
        words.push("some".to_owned());
        words.push("such".to_owned());
        words.push("no".to_owned());
        words.push("nor".to_owned());
        words.push("not".to_owned());
        words.push("only".to_owned());
        words.push("own".to_owned());
        words.push("same".to_owned());
        words.push("so".to_owned());
        words.push("than".to_owned());
        words.push("too".to_owned());
        words.push("very".to_owned());
        words.push("can".to_owned());
        words.push("will".to_owned());
        words.push("just".to_owned());
        words.push("should".to_owned());
        words.push("now".to_owned());
        let r = SearchTokenizer { stop_word_set: words };
        assert(r.stop_list() =~= stop_words());
        Ok(r)
    }

    fn is_stop_word(&self, word: &String) -> (r: bool)
        ensures
            r == self.stop_list().contains(word@),
    {
        let mut i: usize = 0;
        while i < self.stop_word_set.len()
            invariant
                i <= self.stop_word_set@.len(),
                forall|k: int| 0 <= k < i ==> self.stop_list()[k] != word@,
            decreases self.stop_word_set@.len() - i,
        {
            if self.stop_word_set[i] == *word {
                assert(self.stop_list()[i as int] == word@);
                return true;
            }
            i = i + 1;
        }
        false
    }

    /// The tokens of `words`, in order.
    fn tokens_of_words(&self, words: &Vec<String>) -> (r: Vec<Token>)
        ensures
            token_view(r@) == tokens_of(words@.map_values(|w: String| w@), self.stop_list()),
    {
        let ghost ws = words@.map_values(|w: String| w@);
        let mut tokens: Vec<Token> = Vec::new();
        let mut i: usize = 0;
        while i < words.len()
            invariant
                i <= words@.len(),
                ws == words@.map_values(|w: String| w@),
                token_view(tokens@) == tokens_of(ws.take(i as int), self.stop_list()),
            decreases words@.len() - i,
        {
            let cleaned_word = clean_word(words[i].as_str());
            assert(ws.take(i + 1).drop_last() =~= ws.take(i as int));
            assert(ws.take(i + 1).last() == words@[i as int]@);
            let ghost before = token_view(tokens@);
            let keep = !self.is_stop_word(&cleaned_word) && is_valid_token(cleaned_word.as_str());
            assert(keep == kept(cleaned(ws.take(i + 1).last()), self.stop_list()));
            if keep {
                let position: u32 = #[verifier::truncate] (i as u32);
                tokens.push(Token { position, word: cleaned_word });
                assert(token_view(tokens@) =~= before.push((position, cleaned(words@[i as int]@))));
            }
            i = i + 1;
        }
        assert(ws.take(i as int) =~= ws);
        tokens
    }

    /// Tokenizes a query; an error where it holds nothing but whitespace.
    pub fn tokenize_query(&self, sentences: &str) -> (r: Result<TokenizeQueryResult, TokenizationError>)
        ensures
            r is Err <==> whitespace_words(sentences@).len() == 0,
            r is Ok ==> token_view(r->Ok_0.unigram@) == tokens_of(whitespace_words(sentences@), self.stop_list()),
    {
        let words = split_words(sentences);
        if words.len() == 0 {
            return Err(TokenizationError::EmptyInput);
        }
        Ok(TokenizeQueryResult { unigram: self.tokens_of_words(&words) })
    }

    /// Tokenizes a document's text; no tokens where it holds nothing but whitespace.
    pub fn tokenize(&self, sentences: &str) -> (r: Vec<Token>)
        ensures
            token_view(r@) == tokens_of(whitespace_words(sentences@), self.stop_list()),
    {
        let words = split_words(sentences);
        self.tokens_of_words(&words)
    }
}

} // verus!
