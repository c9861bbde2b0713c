//! Text primitives: the operations on strings that the pipeline relies on,
//! their mathematical meaning, and the order in which keys are kept.
use vstd::prelude::*;

verus! {

/// Whether a character counts as white space for `str::trim`: whether it has
/// the Unicode property White_Space.
pub uninterp spec fn white_space(c: char) -> bool;

/// The text without the white space at its start.
pub open spec fn trimmed_start(text: Seq<char>) -> Seq<char>
    decreases text.len(),
{
    if text.len() > 0 && white_space(text.first()) {
        trimmed_start(text.drop_first())
    } else {
        text
    }
}

/// The text without the white space at its end.
pub open spec fn trimmed_end(text: Seq<char>) -> Seq<char>
    decreases text.len(),
{
    if text.len() > 0 && white_space(text.last()) {
        trimmed_end(text.drop_last())
    } else {
        text
    }
}

/// The text without the white space at its two ends.
pub open spec fn trimmed(text: Seq<char>) -> Seq<char> {
    trimmed_end(trimmed_start(text))
}

/// What `str::to_lowercase` makes of a text.
pub uninterp spec fn lowercased(text: Seq<char>) -> Seq<char>;

/// The unit of deduplication and lookup: the text trimmed, then in lower case.
pub open spec fn normalized(text: Seq<char>) -> Seq<char> {
    lowercased(trimmed(text))
}

/// A text is blank when nothing but white space stands in it.
pub open spec fn is_blank(text: Seq<char>) -> bool {
    trimmed(text).len() == 0
}

/// `needle` stands in `hay` at offset `at`.
pub open spec fn occurs_at(needle: Seq<char>, hay: Seq<char>, at: int) -> bool {
    &&& 0 <= at
    &&& at + needle.len() <= hay.len()
    &&& hay.subrange(at, at + needle.len()) == needle
}

/// `needle` is a contiguous part of `hay`.
pub open spec fn occurs_in(needle: Seq<char>, hay: Seq<char>) -> bool {
    exists|at: int| occurs_at(needle, hay, at)
}

/// The index of the first `mark` in `text`, if there is one.
pub open spec fn first_index_of(text: Seq<char>, mark: char) -> Option<int> {
    if text.contains(mark) {
        Some(choose|i: int| is_first_index_of(text, mark, i))
    } else {
        None
    }
}

/// `i` is the place of the first `mark` in `text`.
pub open spec fn is_first_index_of(text: Seq<char>, mark: char, i: int) -> bool {
    &&& 0 <= i < text.len()
    &&& text[i] == mark
    &&& forall|j: int| 0 <= j < i ==> text[j] != mark
}

/// The order of keys: lexicographic by code point, a proper prefix first.
pub open spec fn lex_lt(a: Seq<char>, b: Seq<char>) -> bool
    decreases a.len(),
{
    if b.len() == 0 {
        false
    } else if a.len() == 0 {
        true
    } else if a[0] != b[0] {
        (a[0] as u32) < (b[0] as u32)
    } else {
        lex_lt(a.drop_first(), b.drop_first())
    }
}

/// What is taken off the start of a text is white space, and what is left
/// does not begin with white space.
pub proof fn lemma_trimmed_start(text: Seq<char>)
    ensures
        trimmed_start(text).len() <= text.len(),
        trimmed_start(text) == text.skip(text.len() - trimmed_start(text).len()),
        forall|i: int|
            0 <= i < text.len() - trimmed_start(text).len() ==> white_space(#[trigger] text[i]),
        trimmed_start(text).len() > 0 ==> !white_space(trimmed_start(text).first()),
    decreases text.len(),
{
    if text.len() > 0 && white_space(text.first()) {
        let rest = text.drop_first();
        lemma_trimmed_start(rest);
        let taken = rest.len() - trimmed_start(rest).len();
        assert(rest.skip(taken) =~= text.skip(taken + 1));
        assert forall|i: int| 0 <= i < taken + 1 implies white_space(#[trigger] text[i]) by {
            if i > 0 {
                assert(text[i] == rest[i - 1]);
            }
        }
    } else {
        assert(text.skip(0) =~= text);
    }
}

/// What is taken off the end of a text is white space, and what is left does
/// not end with white space.
pub proof fn lemma_trimmed_end(text: Seq<char>)
    ensures
        trimmed_end(text).len() <= text.len(),
        trimmed_end(text) == text.take(trimmed_end(text).len() as int),
        forall|i: int| trimmed_end(text).len() <= i < text.len() ==> white_space(#[trigger] text[i]),
        trimmed_end(text).len() > 0 ==> !white_space(trimmed_end(text).last()),
    decreases text.len(),
{
    if text.len() > 0 && white_space(text.last()) {
        let rest = text.drop_last();
        lemma_trimmed_end(rest);
        let kept = trimmed_end(rest).len() as int;
        assert(rest.take(kept) =~= text.take(kept));
        assert forall|i: int| kept <= i < text.len() implies white_space(#[trigger] text[i]) by {
            if i < rest.len() {
                assert(text[i] == rest[i]);
            }
        }
    } else {
        assert(text.take(text.len() as int) =~= text);
    }
}

/// A trimmed text is a contiguous part of its text, and neither begins nor
/// ends with white space. A text is blank exactly when it holds nothing but
/// white space; the empty text is blank.
pub proof fn law_trimmed(text: Seq<char>)
    ensures
        occurs_in(trimmed(text), text),
        trimmed(text).len() > 0 ==> !white_space(trimmed(text).first()) && !white_space(
            trimmed(text).last(),
        ),
        is_blank(text) <==> forall|i: int| 0 <= i < text.len() ==> white_space(#[trigger] text[i]),
{
    let inner = trimmed_start(text);
    let taken = text.len() - inner.len();
    lemma_trimmed_start(text);
    lemma_trimmed_end(inner);
    let kept = trimmed(text).len() as int;
    assert(text.subrange(taken, taken + kept) =~= trimmed(text));
    assert(occurs_at(trimmed(text), text, taken));
    if kept > 0 {
        assert(trimmed(text).first() == inner.first());
    }
    if is_blank(text) {
        if inner.len() > 0 {
            assert(white_space(inner[0]));
        }
        assert forall|i: int| 0 <= i < text.len() implies white_space(#[trigger] text[i]) by {}
    }
    if forall|i: int| 0 <= i < text.len() ==> white_space(#[trigger] text[i]) {
        if inner.len() > 0 {
            assert(inner.first() == text[taken]);
        }
    }
}

/// No text is below itself.
pub proof fn lemma_lex_lt_irreflexive(a: Seq<char>)
    ensures
        !lex_lt(a, a),
    decreases a.len(),
{
    if a.len() > 0 {
        lemma_lex_lt_irreflexive(a.drop_first());
    }
}

/// The order of keys is transitive.
pub proof fn lemma_lex_lt_transitive(a: Seq<char>, b: Seq<char>, c: Seq<char>)
    requires
        lex_lt(a, b),
        lex_lt(b, c),
    ensures
        lex_lt(a, c),
    decreases a.len(),
{
    if a.len() > 0 && a[0] == b[0] && b[0] == c[0] {
        lemma_lex_lt_transitive(a.drop_first(), b.drop_first(), c.drop_first());
    }
}

/// Two texts of which neither is below the other are the same text.
pub proof fn lemma_lex_lt_total(a: Seq<char>, b: Seq<char>)
    requires
        !lex_lt(a, b),
        !lex_lt(b, a),
    ensures
        a == b,
    decreases a.len(),
{
    if a.len() > 0 && b.len() > 0 {
        assert(a[0] == b[0]) by {
            vstd::utf8::char_u32_cast(a[0], a[0] as u32);
            vstd::utf8::char_u32_cast(b[0], b[0] as u32);
        }
        lemma_lex_lt_total(a.drop_first(), b.drop_first());
        assert(a =~= seq![a[0]] + a.drop_first());
        assert(b =~= seq![b[0]] + b.drop_first());
    } else {
        assert(a =~= b);
    }
}

/// `str::trim`, which takes the white space off the two ends of a text. The
/// contract claims that the result is the text without the longest run of
/// white space at its start and at its end, white space being what has the
/// Unicode property White_Space, which `white_space` names.
#[verifier::external_body]
pub(crate) fn trim_text<'a>(text: &'a str) -> (r: &'a str)
    ensures
        r@ == trimmed(text@),
        r@.len() > 0 ==> !white_space(r@.first()) && !white_space(r@.last()),
{
    text.trim()
}

/// `str::to_lowercase`, which puts a text into lower case. The contract
/// claims that the result depends on the text alone, and gives it the name
/// `lowercased`.
#[verifier::external_body]
pub(crate) fn lowercase_text(text: &str) -> (r: String)
    ensures
        r@ == lowercased(text@),
{
    text.to_lowercase()
}

/// `str::contains` with a string as pattern. The contract claims that the
/// result says whether the pattern is a contiguous part of the text.
#[verifier::external_body]
pub(crate) fn text_contains(hay: &str, needle: &str) -> (r: bool)
    ensures
        r == occurs_in(needle@, hay@),
{
    hay.contains(needle)
}

/// `<` on `str`. The contract claims that strings are ordered
/// lexicographically by their code points, a proper prefix before the longer
/// string.
#[verifier::external_body]
pub(crate) fn text_lt(a: &str, b: &str) -> (r: bool)
    ensures
        r == lex_lt(a@, b@),
{
    a < b
}

/// `str::split_once` with a `char` as delimiter. The contract claims that the
/// result is nothing where the delimiter does not occur, and else the part
/// before its first occurrence and the part behind it.
#[verifier::external_body]
pub(crate) fn split_at_first<'a>(text: &'a str, mark: char) -> (r: Option<(&'a str, &'a str)>)
    ensures
        match r {
            Some((head, tail)) => {
                &&& is_first_index_of(text@, mark, head@.len() as int)
                &&& head@ == text@.subrange(0, head@.len() as int)
                &&& tail@ == text@.subrange(head@.len() as int + 1, text@.len() as int)
            },
            None => !text@.contains(mark),
        },
{
    text.split_once(mark)
}

} // verus!
