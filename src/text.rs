use vstd::prelude::*;

use crate::chain::Chain;
use crate::store::Node;
use crate::model::{
    has_headroom, lemma_table_wf_links_finite, lemma_totals_fit_le, lemma_trained_all_fits,
    lemma_trained_all_prefix_le, links_finite, observations, observations_all, slots_of,
    totals_fit, trained_all, weight, window_at, TableModel,
};

verus! {

/// A character that can be part of a word: anything but a space, a period,
/// an exclamation or question mark, a comma, a hyphen, a newline, a carriage
/// return or a tab.
pub open spec fn is_word_char(c: char) -> bool {
    !(c == ' ' || c == '.' || c == '!' || c == '?' || c == ',' || c == '-' || c == '\n' || c == '\r'
        || c == '\t')
}

/// A character that can be part of a punctuation token: `. , ! ? - "`.
pub open spec fn is_punct_char(c: char) -> bool {
    c == '.' || c == ',' || c == '!' || c == '?' || c == '-' || c == '"'
}

/// The length of the run of word characters that starts `s`.
pub open spec fn word_run(s: Seq<char>) -> nat
    decreases s.len(),
{
    if s.len() > 0 && is_word_char(s[0]) {
        1 + word_run(s.skip(1))
    } else {
        0
    }
}

/// The length of the run of punctuation characters that starts `s`.
pub open spec fn punct_run(s: Seq<char>) -> nat
    decreases s.len(),
{
    if s.len() > 0 && is_punct_char(s[0]) {
        1 + punct_run(s.skip(1))
    } else {
        0
    }
}

/// The tokens of a text, scanned left to right: at each position a maximal
/// run of word characters is a word token; failing that, a maximal run of
/// punctuation characters is a punctuation token; any other character
/// separates tokens and is dropped.
pub open spec fn tokens(s: Seq<char>) -> Seq<Seq<char>>
    decreases s.len(),
    via tokens_decreases
{
    if s.len() == 0 {
        Seq::empty()
    } else if is_word_char(s[0]) {
        let n = word_run(s) as int;
        seq![s.take(n)] + tokens(s.skip(n))
    } else if is_punct_char(s[0]) {
        let n = punct_run(s) as int;
        seq![s.take(n)] + tokens(s.skip(n))
    } else {
        tokens(s.skip(1))
    }
}

proof fn lemma_runs_bounded(s: Seq<char>)
    ensures
        word_run(s) <= s.len(),
        punct_run(s) <= s.len(),
    decreases s.len(),
{
    if s.len() > 0 {
        lemma_runs_bounded(s.skip(1));
    }
}

#[via_fn]
proof fn tokens_decreases(s: Seq<char>) {
    lemma_runs_bounded(s);
}

/// The tokens that end a sentence: `.` `?` `!` `."` `!"` `?"` `,"`.
pub open spec fn is_break_token(t: Seq<char>) -> bool {
    t == seq!['.'] || t == seq!['?'] || t == seq!['!'] || t == seq!['.', '"'] || t == seq!['!', '"']
        || t == seq!['?', '"'] || t == seq![',', '"']
}

/// The units that follow `pending` when the tokens `toks` are split after
/// each break token; tokens after the last break form a final unit.
pub open spec fn split_from(toks: Seq<Seq<char>>, pending: Seq<Seq<char>>) -> Seq<Seq<Seq<char>>>
    decreases toks.len(),
{
    if toks.len() == 0 {
        if pending.len() == 0 {
            Seq::empty()
        } else {
            seq![pending]
        }
    } else {
        let p = pending.push(toks[0]);
        if is_break_token(toks[0]) {
            seq![p] + split_from(toks.skip(1), Seq::empty())
        } else {
            split_from(toks.skip(1), p)
        }
    }
}

/// A token sequence split into sentence units, each ending after a break
/// token but the last, which may be incomplete.
pub open spec fn sentence_units(toks: Seq<Seq<char>>) -> Seq<Seq<Seq<char>>> {
    split_from(toks, Seq::empty())
}

/// The characters of `s`, in order.
fn chars_of(s: &str) -> (r: Vec<char>)
    ensures
        r@ == s@,
{
    let mut r: Vec<char> = Vec::new();
    for c in it: s.chars()
        invariant
            r@ == it.seq().take(it.index() as int),
    {
        r.push(c);
        proof {
            assert(r@ =~= it.seq().take(it.index() + 1));
        }
    }
    r
}

/// Relies on `String`'s `FromIterator<char>`: the string of the given
/// characters, in order.
#[verifier::external_body]
fn string_from_chars(v: &Vec<char>) -> (r: String)
    ensures
        r@ == v@,
{
    v.iter().collect()
}

fn word_char(c: char) -> (r: bool)
    ensures
        r == is_word_char(c),
{
    !(c == ' ' || c == '.' || c == '!' || c == '?' || c == ',' || c == '-' || c == '\n' || c == '\r'
        || c == '\t')
}

fn punct_char(c: char) -> (r: bool)
    ensures
        r == is_punct_char(c),
{
    c == '.' || c == ',' || c == '!' || c == '?' || c == '-' || c == '"'
}

fn in_class(c: char, word: bool) -> (r: bool)
    ensures
        r == if word {
            is_word_char(c)
        } else {
            is_punct_char(c)
        },
{
    if word {
        word_char(c)
    } else {
        punct_char(c)
    }
}

/// The run of characters of `s` from `i` that all satisfy one class ends at
/// `j`, so the run's length is `j - i`.
proof fn lemma_run_len(s: Seq<char>, i: int, j: int, word: bool)
    requires
        0 <= i <= j <= s.len(),
        forall|k: int| i <= k < j ==> if word { is_word_char(s[k]) } else { is_punct_char(s[k]) },
        j < s.len() ==> !(if word { is_word_char(s[j]) } else { is_punct_char(s[j]) }),
    ensures
        word ==> word_run(s.skip(i)) == j - i,
        !word ==> punct_run(s.skip(i)) == j - i,
    decreases j - i,
{
    if i < j {
        lemma_run_len(s, i + 1, j, word);
        assert(s.skip(i).skip(1) =~= s.skip(i + 1));
    } else if j < s.len() {
        assert(s.skip(i)[0] == s[j]);
    }
}

/// Splits a text into word and punctuation tokens.
pub fn tokenize(text: &str) -> (r: Vec<String>)
    ensures
        r.deep_view() == tokens(text@),
{
    let cs = chars_of(text);
    let ghost s = cs@;
    let mut out: Vec<String> = Vec::new();
    let mut i: usize = 0;
    proof {
        assert(s.skip(0) =~= s);
    }
    while i < cs.len()
        invariant
            s == cs@,
            s == text@,
            i <= s.len(),
            out.deep_view() + tokens(s.skip(i as int)) == tokens(s),
        decreases s.len() - i,
    {
        let c = cs[i];
        let word = word_char(c);
        if word || punct_char(c) {
            let mut j: usize = i + 1;
            let mut tok: Vec<char> = Vec::new();
            tok.push(c);
            while j < cs.len() && in_class(cs[j], word)
                invariant
                    s == cs@,
                    i < j <= s.len(),
                    tok@ == s.subrange(i as int, j as int),
                    forall|k: int|
                        i <= k < j ==> if word {
                            is_word_char(s[k])
                        } else {
                            is_punct_char(s[k])
                        },
                decreases s.len() - j,
            {
                tok.push(cs[j]);
                proof {
                    assert(tok@ =~= s.subrange(i as int, j + 1));
                }
                j = j + 1;
            }
            let t = string_from_chars(&tok);
            let ghost o0 = out.deep_view();
            out.push(t);
            proof {
                lemma_run_len(s, i as int, j as int, word);
                let rest = s.skip(i as int);
                assert(rest[0] == c);
                if !word {
                    assert(!is_word_char(rest[0]));
                }
                assert(rest.take(j - i) =~= s.subrange(i as int, j as int));
                assert(rest.skip(j - i) =~= s.skip(j as int));
                assert(out.deep_view() =~= o0.push(t@));
                assert(tokens(rest) == seq![rest.take(j - i)] + tokens(s.skip(j as int)));
                assert(out.deep_view() + tokens(s.skip(j as int)) =~= o0 + tokens(rest));
            }
            i = j;
        } else {
            proof {
                let rest = s.skip(i as int);
                assert(rest[0] == c);
                assert(rest.skip(1) =~= s.skip(i + 1));
            }
            i = i + 1;
        }
    }
    proof {
        assert(tokens(s.skip(i as int)) =~= Seq::<Seq<char>>::empty());
        assert(out.deep_view() + Seq::<Seq<char>>::empty() =~= out.deep_view());
    }
    out
}

/// Whether a token ends a sentence.
pub fn is_break(token: &str) -> (r: bool)
    ensures
        r == is_break_token(token@),
{
    let cs = chars_of(token);
    let r = if cs.len() == 1 {
        cs[0] == '.' || cs[0] == '?' || cs[0] == '!'
    } else if cs.len() == 2 {
        cs[1] == '"' && (cs[0] == '.' || cs[0] == '!' || cs[0] == '?' || cs[0] == ',')
    } else {
        false
    };
    proof {
        let t = cs@;
        if cs.len() == 1 {
            if t[0] == '.' {
                assert(t =~= seq!['.']);
            } else if t[0] == '?' {
                assert(t =~= seq!['?']);
            } else if t[0] == '!' {
                assert(t =~= seq!['!']);
            }
        } else if cs.len() == 2 && t[1] == '"' {
            if t[0] == '.' {
                assert(t =~= seq!['.', '"']);
            } else if t[0] == '!' {
                assert(t =~= seq!['!', '"']);
            } else if t[0] == '?' {
                assert(t =~= seq!['?', '"']);
            } else if t[0] == ',' {
                assert(t =~= seq![',', '"']);
            }
        }
    }
    r
}

/// Splits a token sequence into sentence units: each break token closes
/// the unit it ends; the tokens after the last break form a final unit.
pub fn split_sentences(toks: Vec<String>) -> (r: Vec<Vec<String>>)
    ensures
        r.deep_view() == sentence_units(toks.deep_view()),
{
    let ghost tv = toks.deep_view();
    let mut parts: Vec<Vec<String>> = Vec::new();
    let mut words: Vec<String> = Vec::new();
    let mut i: usize = 0;
    proof {
        assert(tv.skip(0) =~= tv);
        assert(words.deep_view() =~= Seq::<Seq<char>>::empty());
        assert(parts.deep_view() + sentence_units(tv) =~= sentence_units(tv));
    }
    while i < toks.len()
        invariant
            tv == toks.deep_view(),
            i <= tv.len(),
            parts.deep_view() + split_from(tv.skip(i as int), words.deep_view()) == sentence_units(tv),
        decreases tv.len() - i,
    {
        let t = toks[i].clone();
        let brk = is_break(t.as_str());
        let ghost parts0 = parts.deep_view();
        let ghost w0 = words.deep_view();
        proof {
            assert(tv.skip(i as int)[0] == tv[i as int]);
            assert(tv.skip(i as int).skip(1) =~= tv.skip(i + 1));
        }
        words.push(t);
        proof {
            assert(words.deep_view() =~= w0.push(tv[i as int]));
        }
        if brk {
            let done = words;
            words = Vec::new();
            parts.push(done);
            proof {
                assert(words.deep_view() =~= Seq::<Seq<char>>::empty());
                assert(parts.deep_view() =~= parts0.push(w0.push(tv[i as int])));
                assert(parts.deep_view() + split_from(tv.skip(i + 1), words.deep_view()) =~= parts0
                    + split_from(tv.skip(i as int), w0));
            }
        }
        i = i + 1;
    }
    if words.len() > 0 {
        let ghost parts0 = parts.deep_view();
        let ghost w0 = words.deep_view();
        parts.push(words);
        proof {
            assert(parts.deep_view() =~= parts0.push(w0));
            assert(tv.skip(i as int) =~= Seq::<Seq<char>>::empty());
            assert(parts.deep_view() =~= parts0 + split_from(tv.skip(i as int), w0));
        }
    } else {
        proof {
            assert(tv.skip(i as int) =~= Seq::<Seq<char>>::empty());
            assert(words.deep_view() =~= Seq::<Seq<char>>::empty());
            assert(parts.deep_view() =~= parts.deep_view() + split_from(tv.skip(i as int), words.deep_view()));
        }
    }
    parts
}

/// What separates a token from the one before it in a sentence: nothing
/// before a break token or a comma, a space before anything else.
pub open spec fn glue(t: Seq<char>) -> Seq<char> {
    if is_break_token(t) || t == seq![','] {
        Seq::empty()
    } else {
        seq![' ']
    }
}

/// The text of a sentence: its tokens, each glued to the one before.
pub open spec fn sentence_text(words: Seq<Seq<char>>) -> Seq<char>
    decreases words.len(),
{
    if words.len() == 0 {
        Seq::empty()
    } else if words.len() == 1 {
        words[0]
    } else {
        sentence_text(words.drop_last()) + glue(words.last()) + words.last()
    }
}

/// The text of a paragraph: its sentences separated by single spaces.
pub open spec fn paragraph_text(ss: Seq<Seq<char>>) -> Seq<char>
    decreases ss.len(),
{
    if ss.len() == 0 {
        Seq::empty()
    } else if ss.len() == 1 {
        ss[0]
    } else {
        paragraph_text(ss.drop_last()) + seq![' '] + ss.last()
    }
}

/// `words` is an outcome of a sentence walk over `m`: it starts from the
/// all-boundary window, every word follows its window with positive weight,
/// no word but the last is a break token, and the walk stopped on a break
/// token, on drawing the boundary marker, or at a window that is not a node.
pub open spec fn sentence_walk_ok(m: TableModel<Seq<char>>, order: nat, words: Seq<Seq<char>>) -> bool {
    let p = slots_of(words);
    let last = window_at(p, order, words.len() as int);
    &&& forall|j: int|
        0 <= j < words.len() ==> weight(m, window_at(p, order, j), Some(words[j])) > 0
    &&& forall|j: int| 0 <= j < words.len() - 1 ==> !is_break_token(#[trigger] words[j])
    &&& (words.len() > 0 && is_break_token(words.last())) || !m.contains_key(last) || weight(
        m,
        last,
        None,
    ) > 0
}

/// `s` is the text of some outcome of a sentence walk over `m`.
pub open spec fn sentence_ok(m: TableModel<Seq<char>>, order: nat, s: Seq<char>) -> bool {
    exists|words: Seq<Seq<char>>| sentence_walk_ok(m, order, words) && s == sentence_text(words)
}

/// Whether a token is a single comma.
fn is_comma(token: &str) -> (r: bool)
    ensures
        r == (token@ == seq![',']),
{
    let cs = chars_of(token);
    let r = cs.len() == 1 && cs[0] == ',';
    proof {
        if cs.len() == 1 && cs@[0] == ',' {
            assert(cs@ =~= seq![',']);
        }
    }
    r
}

/// The text of a sentence made of `words`.
fn join_sentence(words: &Vec<String>) -> (r: String)
    ensures
        r@ == sentence_text(words.deep_view()),
{
    let ghost w = words.deep_view();
    let mut out: Vec<char> = Vec::new();
    let mut k: usize = 0;
    while k < words.len()
        invariant
            w == words.deep_view(),
            k <= w.len(),
            out@ == sentence_text(w.take(k as int)),
        decreases w.len() - k,
    {
        let t = words[k].as_str();
        if k > 0 && !(is_break(t) || is_comma(t)) {
            out.push(' ');
        }
        let mut cs = chars_of(t);
        out.append(&mut cs);
        proof {
            assert(w.take(k + 1).drop_last() =~= w.take(k as int));
            if k == 0 {
                assert(out@ =~= w.take(1)[0]);
            } else {
                assert(out@ =~= sentence_text(w.take(k as int)) + glue(w[k as int]) + w[k as int]);
            }
        }
        k = k + 1;
    }
    proof {
        assert(w.take(w.len() as int) =~= w);
    }
    string_from_chars(&out)
}

impl Chain<String> {
    /// Trains the chain on a text: the text is split into tokens, the
    /// tokens into sentence units, and each unit is trained in turn.
    pub fn train_string(&mut self, sentence: &str) -> (r: &mut Self)
        requires
            old(self).wf(),
            totals_fit(
                trained_all(old(self)@, old(self).spec_order(), sentence_units(tokens(sentence@))),
            ),
        ensures
            r.wf(),
            r.spec_order() == old(self).spec_order(),
            r@ == trained_all(old(self)@, old(self).spec_order(), sentence_units(tokens(sentence@))),
            *final(self) == *final(r),
    {
        let parts = split_sentences(tokenize(sentence));
        let ghost units = parts.deep_view();
        let ghost m0 = self@;
        let ghost order = self.spec_order();
        proof {
            self.lemma_wf();
            lemma_table_wf_links_finite(m0, order);
            assert(units.take(0) =~= Seq::<Seq<Seq<char>>>::empty());
        }
        let mut k: usize = 0;
        while k < parts.len()
            invariant
                self.wf(),
                self.spec_order() == order,
                units == parts.deep_view(),
                k <= units.len(),
                links_finite(m0),
                self@ == trained_all(m0, order, units.take(k as int)),
                totals_fit(trained_all(m0, order, units)),
            decreases units.len() - k,
        {
            let unit = parts[k].clone();
            proof {
                assert(unit.deep_view() =~= units[k as int]);
                assert(units.take(k + 1).drop_last() =~= units.take(k as int));
                lemma_trained_all_prefix_le(m0, order, units, k + 1);
                lemma_totals_fit_le(trained_all(m0, order, units.take(k + 1)), trained_all(m0, order, units));
            }
            self.train(unit);
            k = k + 1;
        }
        proof {
            assert(units.take(units.len() as int) =~= units);
        }
        self
    }

    /// Generates a sentence: a weighted random walk from the all-boundary
    /// window that stops on a break token or when no further token is
    /// drawn; the words are joined with single spaces, except that break
    /// tokens and commas attach to the word before.
    pub fn generate_sentence(&self) -> (r: String)
        requires
            self.wf(),
        ensures
            self@ == TableModel::<Seq<char>>::empty() ==> r@ == Seq::<char>::empty(),
            sentence_ok(self@, self.spec_order(), r@),
    {
        let order = self.order();
        if self.is_empty() {
            proof {
                let e = Seq::<Seq<char>>::empty();
                assert(sentence_walk_ok(self@, order as nat, e));
                assert(sentence_text(e) == Seq::<char>::empty());
            }
            return String::new();
        }
        let mut curs: Node<String> = Vec::new();
        let mut j: usize = 0;
        while j < order
            invariant
                j <= order,
                curs@.len() == j,
                forall|k: int| 0 <= k < j ==> #[trigger] curs@[k].deep_view() == None::<Seq<char>>,
            decreases order - j,
        {
            curs.push(None);
            j = j + 1;
        }
        let mut words: Vec<String> = Vec::new();
        proof {
            self.lemma_wf();
            assert(curs.deep_view() =~= window_at(slots_of(words.deep_view()), order as nat, 0));
        }
        loop
            invariant_except_break
                forall|q: int| 0 <= q < words@.len() ==> !is_break_token(#[trigger] words.deep_view()[q]),
            invariant
                self.wf(),
                order == self.spec_order(),
                order >= 1,
                curs@.len() == order,
                curs.deep_view() == window_at(slots_of(words.deep_view()), order as nat, words@.len() as int),
                forall|q: int|
                    0 <= q < words@.len() ==> weight(
                        self@,
                        window_at(slots_of(words.deep_view()), order as nat, q),
                        Some(words.deep_view()[q]),
                    ) > 0,
            ensures
                sentence_walk_ok(self@, order as nat, words.deep_view()),
            decreases usize::MAX - words.len(),
        {
            let ghost w0 = words.deep_view();
            let ghost c0 = curs.deep_view();
            match self.choose_random_link(&curs) {
                Some(t) => {
                    let brk = is_break(t.as_str());
                    let ghost tv = t@;
                    let t2 = t.clone();
                    words.push(t);
                    curs.remove(0);
                    curs.push(Some(t2));
                    proof {
                        let w1 = words.deep_view();
                        assert(w1 =~= w0.push(tv));
                        let slots_before = slots_of(w0);
                        let slots_after = slots_of(w1);
                        assert(slots_after =~= slots_before.push(Some(tv)));
                        assert(curs.deep_view() =~= c0.drop_first().push(Some(tv)));
                        assert(curs.deep_view() =~= window_at(slots_after, order as nat, w1.len() as int));
                        assert forall|q: int|
                            0 <= q < w1.len() implies weight(
                                self@,
                                window_at(slots_after, order as nat, q),
                                Some(w1[q]),
                            ) > 0 by {
                            assert(window_at(slots_after, order as nat, q) =~= window_at(slots_before, order as nat, q));
                            if q < w0.len() {
                                assert(w1[q] == w0[q]);
                            }
                        }
                        assert forall|q: int| 0 <= q < w1.len() - 1 implies !is_break_token(#[trigger] w1[q]) by {
                            assert(w1[q] == w0[q]);
                        }
                    }
                    if brk {
                        break;
                    }
                },
                None => {
                    break;
                },
            }
        }
        join_sentence(&words)
    }

    /// Generates a paragraph of `sentences` sentences, each from its own
    /// walk, separated by single spaces.
    pub fn generate_paragraph(&self, sentences: usize) -> (r: String)
        requires
            self.wf(),
        ensures
            sentences == 0 ==> r@ == Seq::<char>::empty(),
            exists|ss: Seq<Seq<char>>|
                {
                    &&& ss.len() == sentences
                    &&& forall|q: int|
                        0 <= q < ss.len() ==> sentence_ok(self@, self.spec_order(), #[trigger] ss[q])
                    &&& r@ == paragraph_text(ss)
                },
    {
        let mut out: Vec<char> = Vec::new();
        let ghost mut ss: Seq<Seq<char>> = Seq::empty();
        let mut k: usize = 0;
        while k < sentences
            invariant
                self.wf(),
                k <= sentences,
                ss.len() == k,
                forall|q: int| 0 <= q < ss.len() ==> sentence_ok(self@, self.spec_order(), #[trigger] ss[q]),
                out@ == paragraph_text(ss),
            decreases sentences - k,
        {
            let s = self.generate_sentence();
            if k > 0 {
                out.push(' ');
            }
            let mut cs = chars_of(s.as_str());
            out.append(&mut cs);
            proof {
                let ss1 = ss.push(s@);
                assert(ss1.drop_last() =~= ss);
                if k == 0 {
                    assert(out@ =~= paragraph_text(ss1));
                } else {
                    assert(out@ =~= paragraph_text(ss) + seq![' '] + s@);
                }
                ss = ss1;
            }
            k = k + 1;
        }
        string_from_chars(&out)
    }
}

/// A text has no more tokens than characters.
pub proof fn lemma_tokens_len(s: Seq<char>)
    ensures
        tokens(s).len() <= s.len(),
    decreases s.len(),
{
    if s.len() > 0 {
        lemma_runs_bounded(s);
        if is_word_char(s[0]) {
            lemma_tokens_len(s.skip(word_run(s) as int));
        } else if is_punct_char(s[0]) {
            lemma_tokens_len(s.skip(punct_run(s) as int));
        } else {
            lemma_tokens_len(s.skip(1));
        }
    }
}

proof fn lemma_observations_prepend(order: nat, u: Seq<Seq<char>>, rest: Seq<Seq<Seq<char>>>)
    ensures
        observations_all(order, seq![u] + rest) == observations(order, u) + observations_all(order, rest),
    decreases rest.len(),
{
    if rest.len() == 0 {
        let one = seq![u] + rest;
        assert(one.drop_last() =~= Seq::<Seq<Seq<char>>>::empty());
        assert(one.last() == u);
        assert(observations_all(order, one.drop_last()) == 0);
        assert(observations_all(order, rest) == 0);
    } else {
        lemma_observations_prepend(order, u, rest.drop_last());
        assert((seq![u] + rest).drop_last() =~= seq![u] + rest.drop_last());
        assert((seq![u] + rest).last() == rest.last());
    }
}

proof fn lemma_unit_observations(order: nat, u: Seq<Seq<char>>)
    requires
        u.len() > 0,
    ensures
        observations(order, u) <= u.len() * (order + 2),
{
    assert(u.len() * (order + 2) == u.len() * order + 2 * u.len()) by (nonlinear_arith);
    assert(u.len() * order >= order) by (nonlinear_arith)
        requires
            u.len() >= 1,
    ;
}

proof fn lemma_split_observations(order: nat, toks: Seq<Seq<char>>, pending: Seq<Seq<char>>)
    ensures
        observations_all(order, split_from(toks, pending)) <= (toks.len() + pending.len()) * (order
            + 2),
    decreases toks.len(),
{
    let k = order + 2;
    if toks.len() == 0 {
        if pending.len() > 0 {
            lemma_observations_prepend(order, pending, Seq::empty());
            assert(seq![pending] + Seq::<Seq<Seq<char>>>::empty() =~= seq![pending]);
            lemma_unit_observations(order, pending);
        }
    } else {
        let p = pending.push(toks[0]);
        let rest = toks.skip(1);
        if is_break_token(toks[0]) {
            lemma_split_observations(order, rest, Seq::empty());
            lemma_observations_prepend(order, p, split_from(rest, Seq::empty()));
            lemma_unit_observations(order, p);
            assert((rest.len() + 0) * k + p.len() * k == (toks.len() + pending.len()) * k)
                by (nonlinear_arith)
                requires
                    rest.len() + 1 == toks.len(),
                    p.len() == pending.len() + 1,
            ;
        } else {
            lemma_split_observations(order, rest, p);
        }
    }
}

/// A chain with headroom for `(order + 2)` transitions per character of a
/// text can be trained on that text.
pub proof fn lemma_train_string_fits(m: TableModel<Seq<char>>, order: nat, text: Seq<char>, h: nat)
    requires
        links_finite(m),
        has_headroom(m, h),
        text.len() * (order + 2) <= h,
    ensures
        totals_fit(trained_all(m, order, sentence_units(tokens(text)))),
{
    lemma_split_observations(order, tokens(text), Seq::empty());
    lemma_tokens_len(text);
    assert(tokens(text).len() * (order + 2) <= text.len() * (order + 2)) by (nonlinear_arith)
        requires
            tokens(text).len() <= text.len(),
    ;
    lemma_trained_all_fits(m, order, sentence_units(tokens(text)), h);
}

} // verus!
