//! Article text preparation: paragraphs joined by blank lines, markup tags
//! removed; and lemma lookup.
use crate::tokenizer::{chars_of, string_of};
use regex::Regex;
use vstd::prelude::*;

verus! {

/// What `Regex::replace_all` with the pattern `<[^>]*>` and an empty
/// replacement returns for these characters.
pub uninterp spec fn without_tags(s: Seq<char>) -> Seq<char>;

/// Relies on `regex::Regex::new` and `Regex::replace_all`: every match of
/// `<[^>]*>` (a markup tag) is removed. The pattern is fixed and valid.
#[verifier::external_body]
fn remove_tags(s: &str) -> (r: String)
    ensures
        r@ == without_tags(s@),
{
    Regex::new(r"<[^>]*>").unwrap().replace_all(s, "").into_owned()
}

/// The sentences of one paragraph, one after another.
pub open spec fn paragraph_text(p: Seq<Seq<char>>) -> Seq<char>
    decreases p.len(),
{
    if p.len() == 0 {
        Seq::empty()
    } else {
        paragraph_text(p.drop_last()) + p.last()
    }
}

/// The paragraphs' texts separated by blank lines.
pub open spec fn joined_paragraphs(text: Seq<Seq<Seq<char>>>) -> Seq<char>
    decreases text.len(),
{
    if text.len() == 0 {
        Seq::empty()
    } else if text.len() == 1 {
        paragraph_text(text[0])
    } else {
        joined_paragraphs(text.drop_last()) + seq!['\n', '\n'] + paragraph_text(text.last())
    }
}

/// The strings of a paragraph as character sequences.
pub open spec fn paragraph_view(p: Vec<String>) -> Seq<Seq<char>> {
    p@.map_values(|s: String| s@)
}

/// The plain text of an article: its paragraphs joined by blank lines, with
/// markup tags removed.
pub fn extract_plaintext(text: &[Vec<String>]) -> (r: String)
    ensures
        r@ == without_tags(joined_paragraphs(text@.map_values(|p: Vec<String>| paragraph_view(p)))),
{
    let ghost tv = text@.map_values(|p: Vec<String>| paragraph_view(p));
    let mut chars: Vec<char> = Vec::new();
    let mut i: usize = 0;
    while i < text.len()
        invariant
            i <= text@.len(),
            tv == text@.map_values(|p: Vec<String>| paragraph_view(p)),
            chars@ == joined_paragraphs(tv.take(i as int)),
        decreases text@.len() - i,
    {
        if i > 0 {
            chars.push('\n');
            chars.push('\n');
        }
        let ghost before = chars@;
        let paragraph = &text[i];
        let ghost pv = paragraph_view(*paragraph);
        let mut j: usize = 0;
        while j < paragraph.len()
            invariant
                j <= paragraph@.len(),
                pv == paragraph_view(*paragraph),
                chars@ == before + paragraph_text(pv.take(j as int)),
            decreases paragraph@.len() - j,
        {
            let sentence = chars_of(paragraph[j].as_str());
            let mut k: usize = 0;
            let ghost mid = chars@;
            while k < sentence.len()
                invariant
                    k <= sentence@.len(),
                    chars@ == mid + sentence@.take(k as int),
                decreases sentence@.len() - k,
            {
                chars.push(sentence[k]);
                assert(sentence@.take(k + 1) =~= sentence@.take(k as int).push(sentence@[k as int]));
                k = k + 1;
            }
            assert(sentence@.take(k as int) =~= sentence@);
            assert(pv.take(j + 1).drop_last() =~= pv.take(j as int));
            assert(pv[j as int] == paragraph@[j as int]@);
            assert(chars@ =~= before + paragraph_text(pv.take(j + 1)));
            j = j + 1;
        }
        assert(pv.take(j as int) =~= pv);
        assert(tv[i as int] == pv);
        assert(tv.take(i + 1).drop_last() =~= tv.take(i as int));
        proof {
            if i == 0 {
                assert(tv.take(1)[0] == pv);
                assert(chars@ =~= joined_paragraphs(tv.take(1)));
            } else {
                assert(chars@ =~= joined_paragraphs(tv.take(i + 1)));
            }
        }
        i = i + 1;
    }
    assert(tv.take(i as int) =~= tv);
    let joined = string_of(chars.as_slice());
    remove_tags(joined.as_str())
}

/// Maps words to their lemmas.
#[derive(Debug, Clone)]
pub struct Lemmatizer {
    lemmas: Vec<(String, String)>,
}

/// The lemma a list of (word, lemma) pairs gives `w`: that of its last pair.
pub open spec fn last_lemma(pairs: Seq<(Seq<char>, Seq<char>)>, w: Seq<char>) -> Option<Seq<char>>
    decreases pairs.len(),
{
    if pairs.len() == 0 {
        None
    } else if pairs.last().0 == w {
        Some(pairs.last().1)
    } else {
        last_lemma(pairs.drop_last(), w)
    }
}

/// The pairs as character sequences.
pub open spec fn pair_views(v: Seq<(String, String)>) -> Seq<(Seq<char>, Seq<char>)> {
    v.map_values(|p: (String, String)| (p.0@, p.1@))
}

impl Lemmatizer {
    /// The word and lemma pairs, as character sequences.
    pub closed spec fn pairs(&self) -> Seq<(Seq<char>, Seq<char>)> {
        pair_views(self.lemmas@)
    }

    /// Each word appears once.
    pub closed spec fn wf(&self) -> bool {
        forall|i: int, j: int| 0 <= i < j < self.pairs().len() ==> self.pairs()[i].0 != self.pairs()[j].0
    }

    /// A lemmatizer for these pairs; a word listed twice keeps its last lemma.
    pub fn new(lemmas: Vec<(String, String)>) -> (r: Self)
        ensures
            r.wf(),
            forall|w: Seq<char>| #[trigger] last_lemma(r.pairs(), w) == last_lemma(pair_views(lemmas@), w),
    {
        let ghost input = pair_views(lemmas@);
        let mut stack: Vec<(String, String)> = Vec::new();
        let mut lemmas = lemmas;
        let n = lemmas.len();
        while lemmas.len() > 0
            invariant
                lemmas@.len() + stack@.len() == n,
                input.len() == n,
                pair_views(lemmas@) == input.take(lemmas@.len() as int),
                forall|i: int| 0 <= i < stack@.len() ==> ((#[trigger] stack@[i]).0@, stack@[i].1@) == input[n - 1 - i],
            decreases lemmas@.len(),
        {
            let ghost before = lemmas@;
            let p = lemmas.pop().unwrap();
            assert(pair_views(before)[before.len() - 1] == (p.0@, p.1@));
            stack.push(p);
            assert(pair_views(lemmas@) =~= input.take(lemmas@.len() as int));
        }
        let mut out: Vec<(String, String)> = Vec::new();
        while stack.len() > 0
            invariant
                stack@.len() <= n,
                input.len() == n,
                forall|i: int| 0 <= i < stack@.len() ==> ((#[trigger] stack@[i]).0@, stack@[i].1@) == input[n - 1 - i],
                forall|i: int, j: int| 0 <= i < j < out@.len() ==> pair_views(out@)[i].0 != pair_views(out@)[j].0,
                forall|w: Seq<char>| #[trigger] last_lemma(pair_views(out@), w) == last_lemma(input.take(n - stack@.len()), w),
            decreases stack@.len(),
        {
            let ghost k = n - stack@.len();
            let p = stack.pop().unwrap();
            let ghost pv = (p.0@, p.1@);
            assert(input.take(k + 1).drop_last() =~= input.take(k));
            assert(input.take(k + 1).last() == pv);
            let ghost ov = pair_views(out@);
            let mut j: usize = 0;
            while j < out.len() && !(out[j].0 == p.0)
                invariant
                    j <= out@.len(),
                    ov == pair_views(out@),
                    pv == (p.0@, p.1@),
                    forall|i: int| 0 <= i < j ==> ov[i].0 != pv.0,
                decreases out@.len() - j,
            {
                assert(ov[j as int].0 == out@[j as int].0@);
                j = j + 1;
            }
            if j < out.len() {
                assert(ov[j as int].0 == pv.0);
                let word = p.0;
                let lemma = p.1;
                out.set(j, (word, lemma));
                proof {
                    assert(pair_views(out@) =~= ov.update(j as int, pv));
                    lemma_last_lemma_update(ov, j as int, pv);
                    assert forall|w: Seq<char>| #[trigger] last_lemma(ov.update(j as int, pv), w) == last_lemma(input.take(k + 1), w) by {
                        assert(last_lemma(ov, w) == last_lemma(input.take(k), w));
                    }
                    assert forall|a: int, b: int| 0 <= a < b < ov.len() implies ov.update(j as int, pv)[a].0 != ov.update(j as int, pv)[b].0 by {
                    }
                }
            } else {
                out.push(p);
                assert(pair_views(out@) =~= ov.push(pv));
                proof {
                    assert forall|w: Seq<char>| #[trigger] last_lemma(ov.push(pv), w) == last_lemma(input.take(k + 1), w) by {
                        assert(ov.push(pv).drop_last() =~= ov);
                        assert(last_lemma(ov, w) == last_lemma(input.take(k), w));
                    }
                    assert forall|a: int, b: int| 0 <= a < b < ov.push(pv).len() implies ov.push(pv)[a].0 != ov.push(pv)[b].0 by {
                        if b == ov.len() {
                            assert(ov[a].0 != pv.0);
                        }
                    }
                }
            }
        }
        assert(input.take(n as int) =~= input);
        Lemmatizer { lemmas: out }
    }

    /// The lemma of `word`, if it has one.
    pub fn lemmatize(&self, word: &str) -> (r: Option<&String>)
        requires
            self.wf(),
        ensures
            r is None <==> last_lemma(self.pairs(), word@) is None,
            r is Some ==> last_lemma(self.pairs(), word@) == Some(r->Some_0@),
    {
        let key = word.to_owned();
        let mut i: usize = 0;
        while i < self.lemmas.len()
            invariant
                i <= self.lemmas@.len(),
                key@ == word@,
                self.wf(),
                forall|j: int| 0 <= j < i ==> (#[trigger] self.pairs()[j]).0 != word@,
            decreases self.lemmas@.len() - i,
        {
            if self.lemmas[i].0 == key {
                assert(self.pairs()[i as int].0 == word@);
                proof {
                    lemma_last_lemma_unique(self.pairs(), i as int);
                }
                return Some(&self.lemmas[i].1);
            }
            assert(self.pairs()[i as int].0 != word@);
            i = i + 1;
        }
        proof {
            lemma_last_lemma_absent(self.pairs(), word@);
        }
        None
    }
}

/// Replacing the lemma of a word's only pair changes only that word's lemma.
proof fn lemma_last_lemma_update(ps: Seq<(Seq<char>, Seq<char>)>, j: int, p: (Seq<char>, Seq<char>))
    requires
        0 <= j < ps.len(),
        ps[j].0 == p.0,
        forall|a: int, b: int| 0 <= a < b < ps.len() ==> ps[a].0 != ps[b].0,
    ensures
        forall|w: Seq<char>| #[trigger] last_lemma(ps.update(j, p), w) == if w == p.0 {
            Some(p.1)
        } else {
            last_lemma(ps, w)
        },
    decreases ps.len(),
{
    assert forall|w: Seq<char>| #[trigger] last_lemma(ps.update(j, p), w) == if w == p.0 {
        Some(p.1)
    } else {
        last_lemma(ps, w)
    } by {
        lemma_last_lemma_update_at(ps, j, p, w);
    }
}

proof fn lemma_last_lemma_update_at(ps: Seq<(Seq<char>, Seq<char>)>, j: int, p: (Seq<char>, Seq<char>), w: Seq<char>)
    requires
        0 <= j < ps.len(),
        ps[j].0 == p.0,
        forall|a: int, b: int| 0 <= a < b < ps.len() ==> ps[a].0 != ps[b].0,
    ensures
        last_lemma(ps.update(j, p), w) == if w == p.0 {
            Some(p.1)
        } else {
            last_lemma(ps, w)
        },
    decreases ps.len(),
{
    let u = ps.update(j, p);
    if j == ps.len() - 1 {
        assert(u.drop_last() =~= ps.drop_last());
        if w != p.0 {
        }
    } else {
        assert(u.drop_last() =~= ps.drop_last().update(j, p));
        assert(u.last() == ps.last());
        assert(ps.last().0 != p.0);
        lemma_last_lemma_update_at(ps.drop_last(), j, p, w);
    }
}

/// With distinct words, the lemma of the word of pair `i` is that pair's.
proof fn lemma_last_lemma_unique(ps: Seq<(Seq<char>, Seq<char>)>, i: int)
    requires
        0 <= i < ps.len(),
        forall|a: int, b: int| 0 <= a < b < ps.len() ==> ps[a].0 != ps[b].0,
    ensures
        last_lemma(ps, ps[i].0) == Some(ps[i].1),
    decreases ps.len(),
{
    if i < ps.len() - 1 {
        assert(ps.last().0 != ps[i].0);
        lemma_last_lemma_unique(ps.drop_last(), i);
    }
}

/// A word on no pair has no lemma.
proof fn lemma_last_lemma_absent(ps: Seq<(Seq<char>, Seq<char>)>, w: Seq<char>)
    requires
        forall|j: int| 0 <= j < ps.len() ==> (#[trigger] ps[j]).0 != w,
    ensures
        last_lemma(ps, w) is None,
    decreases ps.len(),
{
    if ps.len() > 0 {
        assert(ps.last().0 != w);
        assert forall|j: int| 0 <= j < ps.drop_last().len() implies (#[trigger] ps.drop_last()[j]).0 != w by {
            assert(ps.drop_last()[j] == ps[j]);
        }
        lemma_last_lemma_absent(ps.drop_last(), w);
    }
}

} // verus!
