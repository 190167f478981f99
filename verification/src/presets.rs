//! Splitter for an entry's free-form presets string.
//!
//! Preset strings are formatted as command-line option fragments: words
//! separated by whitespace, where `-v` introduces an attribute description
//! and `-F` a firmware bug-fix name. Unrecognized words are ignored rather
//! than failing the whole entry.

use vstd::prelude::*;
use crate::parser::is_space;

verus! {

/// One directive from an entry's presets string.
#[derive(Debug, PartialEq)]
pub enum Directive {
    /// An attribute description (the argument of `-v`), still unparsed.
    AttributeOverride(String),
    /// A firmware bug-fix name (the argument of `-F`), carried through
    /// opaquely.
    FirmwareFix(String),
}

/// Mathematical model of a [`Directive`].
pub enum DirectiveModel {
    AttributeOverride(Seq<char>),
    FirmwareFix(Seq<char>),
}

impl View for Directive {
    type V = DirectiveModel;

    open spec fn view(&self) -> DirectiveModel {
        match self {
            Directive::AttributeOverride(s) => DirectiveModel::AttributeOverride(s@),
            Directive::FirmwareFix(s) => DirectiveModel::FirmwareFix(s@),
        }
    }
}

impl DeepView for Directive {
    type V = DirectiveModel;

    open spec fn deep_view(&self) -> DirectiveModel {
        self.view()
    }
}

impl Clone for Directive {
    fn clone(&self) -> (r: Self)
        ensures
            r == *self,
    {
        match self {
            Directive::AttributeOverride(s) => Directive::AttributeOverride(s.clone()),
            Directive::FirmwareFix(s) => Directive::FirmwareFix(s.clone()),
        }
    }
}

/// First position at or after `i` that does not hold whitespace.
pub open spec fn skip_spaces(s: Seq<char>, i: int) -> int
    decreases s.len() - i,
{
    if 0 <= i < s.len() && is_space(s[i]) {
        skip_spaces(s, i + 1)
    } else {
        i
    }
}

/// First position at or after `i` that ends a word: whitespace or the end of
/// input.
pub open spec fn word_end(s: Seq<char>, i: int) -> int
    decreases s.len() - i,
{
    if 0 <= i < s.len() && !is_space(s[i]) {
        word_end(s, i + 1)
    } else {
        i
    }
}

proof fn lemma_skip_spaces(s: Seq<char>, i: int)
    requires
        0 <= i <= s.len(),
    ensures
        i <= skip_spaces(s, i) <= s.len(),
        skip_spaces(s, i) < s.len() ==> !is_space(s[skip_spaces(s, i)]),
    decreases s.len() - i,
{
    if i < s.len() && is_space(s[i]) {
        lemma_skip_spaces(s, i + 1);
    }
}

proof fn lemma_word_end(s: Seq<char>, i: int)
    requires
        0 <= i <= s.len(),
    ensures
        i <= word_end(s, i) <= s.len(),
    decreases s.len() - i,
{
    if i < s.len() && !is_space(s[i]) {
        lemma_word_end(s, i + 1);
    }
}

/// The whitespace-separated words of `s`, from position `i` on.
pub open spec fn words(s: Seq<char>, i: int) -> Seq<Seq<char>>
    decreases s.len() - i,
    via words_decreases
{
    if 0 <= i <= s.len() {
        let j = skip_spaces(s, i);
        if j >= s.len() {
            Seq::<Seq<char>>::empty()
        } else {
            let k = word_end(s, j);
            seq![s.subrange(j, k)] + words(s, k)
        }
    } else {
        Seq::<Seq<char>>::empty()
    }
}

#[via_fn]
proof fn words_decreases(s: Seq<char>, i: int) {
    if 0 <= i <= s.len() {
        lemma_skip_spaces(s, i);
        let j = skip_spaces(s, i);
        if j < s.len() {
            lemma_word_end(s, j + 1);
            assert(word_end(s, j) == word_end(s, j + 1));
        }
    }
}

/// The directives named by a word list, from index `i` on: `-v` or `-F`
/// followed by an argument produce a directive, any other word is ignored,
/// as is a trailing `-v` or `-F` without its argument.
pub open spec fn directives_from(ws: Seq<Seq<char>>, i: int) -> Seq<DirectiveModel>
    decreases ws.len() - i,
{
    if !(0 <= i < ws.len()) {
        Seq::<DirectiveModel>::empty()
    } else if ws[i] == "-v"@ && i + 1 < ws.len() {
        seq![DirectiveModel::AttributeOverride(ws[i + 1])] + directives_from(ws, i + 2)
    } else if ws[i] == "-F"@ && i + 1 < ws.len() {
        seq![DirectiveModel::FirmwareFix(ws[i + 1])] + directives_from(ws, i + 2)
    } else {
        directives_from(ws, i + 1)
    }
}

/// The ordered directives of a presets string.
pub open spec fn split_model(s: Seq<char>) -> Seq<DirectiveModel> {
    directives_from(words(s, 0), 0)
}

fn skip_spaces_at(s: &Vec<char>, i: usize) -> (r: usize)
    requires
        i <= s.len(),
    ensures
        r as int == skip_spaces(s@, i as int),
        i <= r <= s.len(),
{
    let mut p = i;
    while p < s.len() && (s[p] == ' ' || s[p] == '\t' || s[p] == '\r' || s[p] == '\n')
        invariant
            i <= p <= s.len(),
            skip_spaces(s@, i as int) == skip_spaces(s@, p as int),
        decreases s.len() - p,
    {
        p = p + 1;
    }
    p
}

fn word_end_at(s: &Vec<char>, i: usize) -> (r: usize)
    requires
        i <= s.len(),
    ensures
        r as int == word_end(s@, i as int),
        i <= r <= s.len(),
{
    let mut p = i;
    while p < s.len() && !(s[p] == ' ' || s[p] == '\t' || s[p] == '\r' || s[p] == '\n')
        invariant
            i <= p <= s.len(),
            word_end(s@, i as int) == word_end(s@, p as int),
        decreases s.len() - p,
    {
        p = p + 1;
    }
    p
}

fn copy_word(s: &Vec<char>, from: usize, to: usize) -> (r: Vec<char>)
    requires
        from <= to <= s.len(),
    ensures
        r@ == s@.subrange(from as int, to as int),
{
    let mut out: Vec<char> = Vec::new();
    let mut i = from;
    while i < to
        invariant
            from <= i <= to <= s.len(),
            out@ == s@.subrange(from as int, i as int),
        decreases to - i,
    {
        out.push(s[i]);
        assert(out@ =~= s@.subrange(from as int, i + 1 as int));
        i = i + 1;
    }
    out
}

fn tokenize(s: &Vec<char>) -> (r: Vec<Vec<char>>)
    ensures
        r.deep_view() == words(s@, 0),
{
    let mut out: Vec<Vec<char>> = Vec::new();
    let mut p: usize = 0;
    assert(words(s@, 0) =~= out.deep_view() + words(s@, 0));
    loop
        invariant_except_break
            words(s@, 0) == out.deep_view() + words(s@, p as int),
        invariant
            p <= s.len(),
        ensures
            words(s@, 0) == out.deep_view(),
        decreases s.len() - p,
    {
        let j = skip_spaces_at(s, p);
        if j >= s.len() {
            assert(words(s@, 0) =~= out.deep_view());
            break;
        }
        let k = word_end_at(s, j);
        let w = copy_word(s, j, k);
        proof {
            lemma_skip_spaces(s@, p as int);
            lemma_word_end(s@, j as int);
        }
        let ghost before = out.deep_view();
        let ghost wv = w@;
        out.push(w);
        assert(out.deep_view() =~~= before.push(wv));
        assert(before + (seq![wv] + words(s@, k as int)) =~= out.deep_view() + words(
            s@,
            k as int,
        ));
        assert(k > p) by {
            lemma_skip_spaces(s@, p as int);
            lemma_word_end(s@, j + 1 as int);
            assert(word_end(s@, j as int) == word_end(s@, j + 1 as int));
        }
        p = k;
    }
    out
}

/// Split a presets string into its ordered directives: `-v` arguments as
/// attribute overrides and `-F` arguments as firmware-fix names, with
/// unrecognized words ignored.
pub fn split(presets: &str) -> (r: Vec<Directive>)
    ensures
        r.deep_view() == split_model(presets@),
{
    let s = crate::text::str_to_chars(presets);
    let toks = tokenize(&s);
    let ghost ws = toks.deep_view();
    let mut out: Vec<Directive> = Vec::new();
    let mut i: usize = 0;
    assert(directives_from(ws, 0) =~= out.deep_view() + directives_from(ws, 0));
    while i < toks.len()
        invariant
            i <= toks.len(),
            ws == toks.deep_view(),
            directives_from(ws, 0) == out.deep_view() + directives_from(ws, i as int),
        decreases toks.len() - i,
    {
        let ghost before = out.deep_view();
        proof {
            assert(ws[i as int] =~= toks@[i as int]@);
        }
        if crate::text::chars_eq_str(&toks[i], "-v") && i + 1 < toks.len() {
            let arg = crate::text::chars_to_string(&toks[i + 1]);
            assert(ws[i + 1 as int] =~= arg@);
            out.push(Directive::AttributeOverride(arg));
            assert(out.deep_view() =~= before.push(
                DirectiveModel::AttributeOverride(ws[i + 1 as int]),
            ));
            assert(before + (seq![DirectiveModel::AttributeOverride(ws[i + 1 as int])]
                + directives_from(ws, i + 2 as int)) =~= out.deep_view() + directives_from(
                ws,
                i + 2 as int,
            ));
            i = i + 2;
        } else if crate::text::chars_eq_str(&toks[i], "-F") && i + 1 < toks.len() {
            let arg = crate::text::chars_to_string(&toks[i + 1]);
            assert(ws[i + 1 as int] =~= arg@);
            out.push(Directive::FirmwareFix(arg));
            assert(out.deep_view() =~= before.push(
                DirectiveModel::FirmwareFix(ws[i + 1 as int]),
            ));
            assert(before + (seq![DirectiveModel::FirmwareFix(ws[i + 1 as int])]
                + directives_from(ws, i + 2 as int)) =~= out.deep_view() + directives_from(
                ws,
                i + 2 as int,
            ));
            i = i + 2;
        } else {
            i = i + 1;
        }
    }
    assert(directives_from(ws, toks.len() as int) =~= Seq::<DirectiveModel>::empty());
    assert(out.deep_view() =~= directives_from(ws, 0));
    out
}

} // verus!
