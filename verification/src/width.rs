//! Display widths, in terminal columns.
use vstd::prelude::*;

verus! {

/// The columns a character takes; none for control characters.
pub uninterp spec fn char_columns(c: char) -> Option<usize>;

/// The columns a text takes.
pub uninterp spec fn text_columns(text: Seq<char>) -> usize;

/// The character is a control character.
pub open spec fn control(c: char) -> bool {
    c < '\u{20}' || ('\u{7F}' <= c && c < '\u{A0}')
}

/// The character is one of ASCII that is printed.
pub open spec fn printable(c: char) -> bool {
    '\u{20}' <= c && c < '\u{7F}'
}

/// The text is made of printed ASCII characters.
pub open spec fn plain(text: Seq<char>) -> bool {
    forall|i: int| 0 <= i < text.len() ==> printable(#[trigger] text[i])
}

/// Calls `unicode_width::UnicodeWidthChar::width`. Claimed is that the width
/// depends on nothing but the character, that exactly control characters have
/// none, and that a printed ASCII character takes one column. The widths of
/// the other characters are left unsaid.
#[verifier::external_body]
pub(crate) fn char_width(c: char) -> (r: Option<usize>)
    ensures
        r == char_columns(c),
        r is None <==> control(c),
        printable(c) ==> r == Some(1usize),
{
    unicode_width::UnicodeWidthChar::width(c)
}

/// Calls `unicode_width::UnicodeWidthStr::width`. Claimed is that the width
/// depends on nothing but the text, and that a text of printed ASCII
/// characters takes one column for each. The widths of other texts, in which
/// neighbouring characters can join, are left unsaid.
#[verifier::external_body]
pub(crate) fn text_width(text: &str) -> (r: usize)
    ensures
        r == text_columns(text@),
        plain(text@) ==> r == text@.len(),
{
    unicode_width::UnicodeWidthStr::width(text)
}

/// The columns of a character, control characters taking none.
pub open spec fn columns(c: char) -> usize {
    match char_columns(c) {
        Some(w) => w,
        None => 0,
    }
}

/// The columns of each character of a text.
pub open spec fn columns_of(text: Seq<char>) -> Seq<usize> {
    text.map_values(|c: char| columns(c))
}

/// The columns of each character.
pub fn widths_of(chars: &Vec<char>) -> (r: Vec<usize>)
    ensures
        r@ == columns_of(chars@),
{
    let mut r: Vec<usize> = Vec::new();
    let mut i: usize = 0;
    while i < chars.len()
        invariant
            i <= chars.len(),
            r@ == columns_of(chars@.take(i as int)),
        decreases chars.len() - i,
    {
        let w = match char_width(chars[i]) {
            Some(w) => w,
            None => 0,
        };
        r.push(w);
        i = i + 1;
        assert(r@ =~= columns_of(chars@.take(i as int)));
    }
    assert(chars@.take(i as int) =~= chars@);
    r
}

pub open spec fn total(widths: Seq<usize>) -> nat
    decreases widths.len(),
{
    if widths.len() == 0 {
        0
    } else {
        total(widths.drop_last()) + widths.last() as nat
    }
}

/// `n` is the largest number of leading widths that fit in the budget, each
/// prefix on the way fitting too.
pub open spec fn is_fit(widths: Seq<usize>, budget: nat, n: int) -> bool {
    &&& 0 <= n <= widths.len()
    &&& total(widths.take(n)) <= budget
    &&& n < widths.len() ==> total(widths.take(n + 1)) > budget
}

/// How many leading widths fit in the budget.
pub open spec fn fit(widths: Seq<usize>, budget: nat) -> int {
    choose|n: int| is_fit(widths, budget, n)
}

proof fn lemma_total_monotonic(widths: Seq<usize>, a: int, b: int)
    requires
        0 <= a <= b <= widths.len(),
    ensures
        total(widths.take(a)) <= total(widths.take(b)),
    decreases b - a,
{
    if a < b {
        lemma_total_monotonic(widths, a, b - 1);
        assert(widths.take(b).drop_last() =~= widths.take(b - 1));
    }
}

/// There is only one such number.
pub proof fn lemma_fit_unique(widths: Seq<usize>, budget: nat, n: int)
    requires
        is_fit(widths, budget, n),
    ensures
        n == fit(widths, budget),
{
    let m = fit(widths, budget);
    if m < n {
        lemma_total_monotonic(widths, m + 1, n);
    } else if n < m {
        lemma_total_monotonic(widths, n + 1, m);
    }
}

/// There always is one.
pub proof fn lemma_fit_exists(widths: Seq<usize>, budget: nat)
    ensures
        is_fit(widths, budget, fit(widths, budget)),
{
    assert(widths.take(0) =~= seq![]);
    lemma_fit_from(widths, budget, 0);
}

proof fn lemma_fit_from(widths: Seq<usize>, budget: nat, n: int)
    requires
        0 <= n <= widths.len(),
        total(widths.take(n)) <= budget,
    ensures
        is_fit(widths, budget, fit(widths, budget)),
    decreases widths.len() - n,
{
    if n < widths.len() && total(widths.take(n + 1)) <= budget {
        lemma_fit_from(widths, budget, n + 1);
    } else {
        assert(is_fit(widths, budget, n));
    }
}

/// How many leading widths fit in the budget.
pub fn count_fitting(widths: &Vec<usize>, budget: usize) -> (r: usize)
    ensures
        is_fit(widths@, budget as nat, r as int),
        r == fit(widths@, budget as nat),
{
    let mut used: usize = 0;
    let mut i: usize = 0;
    assert(widths@.take(0) =~= seq![]);
    while i < widths.len() && widths[i] <= budget - used
        invariant
            i <= widths.len(),
            used <= budget,
            used == total(widths@.take(i as int)),
        decreases widths.len() - i,
    {
        assert(widths@.take(i + 1).drop_last() =~= widths@.take(i as int));
        used = used + widths[i];
        i = i + 1;
    }
    proof {
        if i < widths@.len() {
            assert(widths@.take(i + 1).drop_last() =~= widths@.take(i as int));
        }
        lemma_fit_unique(widths@, budget as nat, i as int);
    }
    i
}

/// The text padded with spaces, given its own width.
pub fn pad_to(text: &str, text_width: usize, width: usize) -> (r: String)
    ensures
        r@ == padded(text@, text_width as nat, width as nat),
{
    let mut r = text.to_owned();
    r.append(crate::text::spaces(width.saturating_sub(text_width)).as_str());
    r
}

/// The text with trailing spaces up to `width`, itself taking `own`.
pub open spec fn padded(text: Seq<char>, own: nat, width: nat) -> Seq<char> {
    text + crate::text::blanks(
        if width >= own {
            (width - own) as nat
        } else {
            0
        },
    )
}

/// The largest of the widths and `least`.
pub open spec fn widest(widths: Seq<usize>, least: usize) -> usize
    decreases widths.len(),
{
    if widths.len() == 0 {
        least
    } else if widths.last() > widest(widths.drop_last(), least) {
        widths.last()
    } else {
        widest(widths.drop_last(), least)
    }
}

pub fn largest(widths: &Vec<usize>, least: usize) -> (r: usize)
    ensures
        r == widest(widths@, least),
{
    let mut r: usize = least;
    let mut i: usize = 0;
    assert(widths@.take(0) =~= seq![]);
    while i < widths.len()
        invariant
            i <= widths.len(),
            r == widest(widths@.take(i as int), least),
        decreases widths.len() - i,
    {
        assert(widths@.take(i + 1).drop_last() =~= widths@.take(i as int));
        if widths[i] > r {
            r = widths[i];
        }
        i = i + 1;
    }
    assert(widths@.take(i as int) =~= widths@);
    r
}

/// A text cut at its end, shortened further in front of its last character,
/// the mark of the cut, until it fits; nothing where not even the mark fits.
/// Characters can join into something wider than they are one by one, so a
/// cut by their widths alone may be too long.
pub open spec fn trimmed_end(cut: Seq<char>, budget: nat) -> Seq<char>
    decreases cut.len(),
{
    if cut.len() == 0 || text_columns(cut) <= budget {
        cut
    } else if cut.len() == 1 {
        seq![]
    } else {
        trimmed_end(cut.remove(cut.len() - 2), budget)
    }
}

/// A text cut at its start, shortened further behind its first character,
/// the mark of the cut, until it fits; nothing where not even the mark fits.
pub open spec fn trimmed_start(cut: Seq<char>, budget: nat) -> Seq<char>
    decreases cut.len(),
{
    if cut.len() == 0 || text_columns(cut) <= budget {
        cut
    } else if cut.len() == 1 {
        seq![]
    } else {
        trimmed_start(cut.remove(1), budget)
    }
}

/// Shortens a text that was cut at its end until it fits.
pub fn trim_end(cut: String, budget: usize) -> (r: String)
    ensures
        r@ == trimmed_end(cut@, budget as nat),
        text_columns(r@) <= budget,
{
    let ghost whole = trimmed_end(cut@, budget as nat);
    let mut chars = crate::text::chars_of(cut.as_str());
    let mut r = cut;
    while text_width(r.as_str()) > budget
        invariant
            r@ == chars@,
            trimmed_end(r@, budget as nat) == whole,
        ensures
            r@ == whole,
            text_columns(r@) <= budget,
        decreases chars@.len(),
    {
        let n: usize = chars.len();
        if n >= 2 {
            chars.remove(n - 2);
        } else {
            chars.clear();
        }
        r = crate::text::string_from(&chars, 0, chars.len());
        assert(r@ =~= chars@);
    }
    r
}

/// Shortens a text that was cut at its start until it fits.
pub fn trim_start(cut: String, budget: usize) -> (r: String)
    ensures
        r@ == trimmed_start(cut@, budget as nat),
        text_columns(r@) <= budget,
{
    let ghost whole = trimmed_start(cut@, budget as nat);
    let mut chars = crate::text::chars_of(cut.as_str());
    let mut r = cut;
    while text_width(r.as_str()) > budget
        invariant
            r@ == chars@,
            trimmed_start(r@, budget as nat) == whole,
        ensures
            r@ == whole,
            text_columns(r@) <= budget,
        decreases chars@.len(),
    {
        if chars.len() >= 2 {
            chars.remove(1);
        } else {
            chars.clear();
        }
        r = crate::text::string_from(&chars, 0, chars.len());
        assert(r@ =~= chars@);
    }
    r
}

} // verus!
