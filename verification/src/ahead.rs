//! The scanner looks only ahead: what it finds from a position on depends on
//! the text from that position on and on nothing before it. From this it
//! follows that a comment can be cut out of a text without any change to
//! the tokens.

use crate::tokenizer::{
    lemma_comment_skipped, lemma_run_end, lemma_scan_advances, let_word, lex, lex_from,
    print_word, run_end, scan, spells, two_points, Run, Scan, TokenView,
};
use vstd::prelude::*;

verus! {

/// The text from position `i` on.
pub open spec fn rest(s: Seq<char>, i: int) -> Seq<char> {
    s.subrange(i, s.len() as int)
}

/// A scan whose next position is moved on by `by`.
pub open spec fn shifted(found: Scan, by: int) -> Scan {
    match found {
        Scan::Skip { next } => Scan::Skip { next: next + by },
        Scan::Emit { token, next } => Scan::Emit { token, next: next + by },
        Scan::Fail { error } => Scan::Fail { error },
    }
}

/// A stretch of admitted characters that is followed by the end of the
/// text, or by a character that is not admitted, is a run.
pub proof fn lemma_run_end_is(s: Seq<char>, i: int, j: int, run: Run)
    requires
        0 <= i <= j <= s.len(),
        forall|k: int| i <= k < j ==> run.admits(#[trigger] s[k]),
        j < s.len() ==> !run.admits(s[j]),
    ensures
        run_end(s, i, run) == j,
    decreases j - i,
{
    if i < j {
        lemma_run_end_is(s, i + 1, j, run);
    }
}

/// A run in a text ends where it ends in the rest of the text.
pub proof fn lemma_run_end_rest(s: Seq<char>, i: int, k: int, run: Run)
    requires
        0 <= i,
        0 <= k <= s.len() - i,
    ensures
        run_end(s, i + k, run) == i + run_end(rest(s, i), k, run),
    decreases s.len() - i - k,
{
    let r = rest(s, i);
    if k < r.len() {
        assert(r[k] == s[i + k]);
        if run.admits(s[i + k]) {
            lemma_run_end_rest(s, i, k + 1, run);
        }
    }
}

/// Two decimal points stand in a stretch of a text exactly if they stand in
/// the same stretch of the rest of the text.
pub proof fn lemma_two_points_rest(s: Seq<char>, i: int, a: int, b: int)
    requires
        0 <= i,
        0 <= a <= b <= s.len() - i,
    ensures
        two_points(s, i + a, i + b) == two_points(rest(s, i), a, b),
{
    let r = rest(s, i);
    if two_points(s, i + a, i + b) {
        let (x, y) = choose|x: int, y: int| i + a <= x < y < i + b && s[x] == '.' && s[y] == '.';
        assert(r[x - i] == s[x] && r[y - i] == s[y]);
        assert(a <= x - i < y - i < b && r[x - i] == '.' && r[y - i] == '.');
    }
    if two_points(r, a, b) {
        let (x, y) = choose|x: int, y: int| a <= x < y < b && r[x] == '.' && r[y] == '.';
        assert(r[x] == s[x + i] && r[y] == s[y + i]);
        assert(i + a <= x + i < y + i < i + b && s[x + i] == '.' && s[y + i] == '.');
    }
}

/// A word stands in a text exactly if it stands in the rest of the text.
pub proof fn lemma_spells_rest(s: Seq<char>, i: int, k: int, word: Seq<char>)
    requires
        0 <= i,
        0 <= k <= s.len() - i,
    ensures
        spells(s, i + k, word) == spells(rest(s, i), k, word),
{
    let r = rest(s, i);
    if i + k + word.len() <= s.len() {
        assert(s.subrange(i + k, i + k + word.len()) =~= r.subrange(k, k + word.len()));
    }
}

/// What the scanner finds at a position is what it finds in the rest of
/// the text, moved on by where the rest begins.
pub proof fn lemma_scan_rest(s: Seq<char>, i: int, k: int)
    requires
        0 <= i,
        0 <= k < s.len() - i,
    ensures
        scan(s, i + k) == shifted(scan(rest(s, i), k), i),
{
    let r = rest(s, i);
    assert(r[k] == s[i + k]);
    lemma_run_end_rest(s, i, k, Run::Comment);
    lemma_run_end_rest(s, i, k + 1, Run::Name);
    lemma_run_end_rest(s, i, k + 1, Run::Text);
    lemma_run_end_rest(s, i, k, Run::Number);
    lemma_run_end(r, k + 1, Run::Name);
    lemma_run_end(r, k + 1, Run::Text);
    lemma_run_end(r, k, Run::Number);
    lemma_spells_rest(s, i, k, let_word());
    lemma_spells_rest(s, i, k, print_word());
    let name_end = run_end(r, k + 1, Run::Name);
    assert(s.subrange(i + k, i + name_end) =~= r.subrange(k, name_end));
    let text_end = run_end(r, k + 1, Run::Text);
    assert(s.subrange(i + k + 1, i + text_end) =~= r.subrange(k + 1, text_end));
    let number_end = run_end(r, k, Run::Number);
    assert(s.subrange(i + k, i + number_end) =~= r.subrange(k, number_end));
    lemma_two_points_rest(s, i, k, number_end);
}

/// Scanning from a position of a text is scanning the rest of the text.
pub proof fn lemma_lex_rest(s: Seq<char>, i: int, k: int, done: Seq<TokenView>)
    requires
        0 <= i,
        0 <= k <= s.len() - i,
    ensures
        lex_from(s, i + k, done) == lex_from(rest(s, i), k, done),
    decreases s.len() - i - k,
{
    let r = rest(s, i);
    if k < s.len() - i {
        lemma_scan_rest(s, i, k);
        lemma_scan_advances(s, i + k);
        lemma_scan_advances(r, k);
        match scan(r, k) {
            Scan::Skip { next } => {
                lemma_lex_rest(s, i, next, done);
            },
            Scan::Emit { token, next } => {
                lemma_lex_rest(s, i, next, done.push(token));
            },
            Scan::Fail { error } => {},
        }
    }
}

/// The scanner looks only ahead: from two positions, in one text or in
/// two, behind which the same characters stand, it finds the same tokens or
/// the same error.
pub proof fn lemma_lex_looks_ahead(
    s1: Seq<char>,
    i1: int,
    s2: Seq<char>,
    i2: int,
    done: Seq<TokenView>,
)
    requires
        0 <= i1 <= s1.len(),
        0 <= i2 <= s2.len(),
        rest(s1, i1) == rest(s2, i2),
    ensures
        lex_from(s1, i1, done) == lex_from(s2, i2, done),
{
    lemma_lex_rest(s1, i1, 0, done);
    lemma_lex_rest(s2, i2, 0, done);
}

/// A comment can be cut out. Where a text reads `before`, then a comment
/// (a `#` and what follows it on its line), then `after` (nothing, or a
/// line feed and more), the scanner that has come to the comment finds what
/// it would find there with the comment gone.
pub proof fn lemma_comment_absent(
    before: Seq<char>,
    comment: Seq<char>,
    after: Seq<char>,
    done: Seq<TokenView>,
)
    requires
        comment.len() > 0,
        comment[0] == '#',
        forall|k: int| 0 <= k < comment.len() ==> #[trigger] comment[k] != '\n',
        after.len() > 0 ==> after[0] == '\n',
    ensures
        lex_from(before + comment + after, before.len() as int, done) == lex_from(
            before + after,
            before.len() as int,
            done,
        ),
{
    let with = before + comment + after;
    let without = before + after;
    let i = before.len() as int;
    let j = i + comment.len();
    assert(with[i] == comment[0]);
    assert forall|k: int| i <= k < j implies Run::Comment.admits(#[trigger] with[k]) by {
        assert(with[k] == comment[k - i]);
    }
    if j < with.len() {
        assert(with[j] == after[0]);
    }
    lemma_run_end_is(with, i, j, Run::Comment);
    lemma_comment_skipped(with, i, done);
    assert(rest(with, j) =~= after);
    assert(rest(without, i) =~= after);
    lemma_lex_looks_ahead(with, j, without, i, done);
}

/// Whether the scanner, when it goes through `s` from position `i`, comes
/// to stand at position `n`: no token, comment or error on its way reaches
/// over `n`.
pub open spec fn comes_to(s: Seq<char>, i: int, n: int) -> bool
    decreases n - i,
{
    if i >= n {
        i == n
    } else {
        match scan(s, i) {
            Scan::Skip { next } => i < next <= n && comes_to(s, next, n),
            Scan::Emit { token, next } => i < next <= n && comes_to(s, next, n),
            Scan::Fail { error } => false,
        }
    }
}

/// Two texts that read the same before position `n`, the first with a `#`
/// at `n`, the second with a line feed there or at its end.
pub open spec fn same_up_to_comment(s1: Seq<char>, s2: Seq<char>, n: int) -> bool {
    &&& 0 <= n < s1.len()
    &&& n <= s2.len()
    &&& s1[n] == '#'
    &&& n < s2.len() ==> s2[n] == '\n'
    &&& forall|k: int| 0 <= k < n ==> s1[k] == s2[k]
}

/// In such texts a run that ends at or before `n` in the first ends at the
/// same place in the second.
pub proof fn lemma_run_end_before_comment(s1: Seq<char>, s2: Seq<char>, n: int, i: int, run: Run)
    requires
        same_up_to_comment(s1, s2, n),
        0 <= i <= n,
        run_end(s1, i, run) <= n,
    ensures
        run_end(s2, i, run) == run_end(s1, i, run),
    decreases n - i,
{
    if i < n {
        if run.admits(s1[i]) {
            lemma_run_end_before_comment(s1, s2, n, i + 1, run);
        }
    } else {
        lemma_run_end(s1, n + 1, run);
    }
}

/// In such texts a word stands in the first exactly if it stands in the
/// second, if it holds neither `#` nor a line feed.
pub proof fn lemma_spells_before_comment(
    s1: Seq<char>,
    s2: Seq<char>,
    n: int,
    k: int,
    word: Seq<char>,
)
    requires
        same_up_to_comment(s1, s2, n),
        0 <= k < n,
        forall|j: int| 0 <= j < word.len() ==> word[j] != '#' && word[j] != '\n',
    ensures
        spells(s1, k, word) == spells(s2, k, word),
{
    if k + word.len() <= n {
        assert(s1.subrange(k, k + word.len()) =~= s2.subrange(k, k + word.len()));
    } else {
        if spells(s1, k, word) {
            assert(s1.subrange(k, k + word.len())[n - k] == s1[n]);
        }
        if spells(s2, k, word) {
            assert(s2.subrange(k, k + word.len())[n - k] == s2[n]);
        }
    }
}

/// In such texts two decimal points stand in a stretch before `n` of the
/// first exactly if they stand in the same stretch of the second.
pub proof fn lemma_two_points_before_comment(s1: Seq<char>, s2: Seq<char>, n: int, a: int, b: int)
    requires
        same_up_to_comment(s1, s2, n),
        0 <= a <= b <= n,
    ensures
        two_points(s1, a, b) == two_points(s2, a, b),
{
    if two_points(s1, a, b) {
        let (x, y) = choose|x: int, y: int| a <= x < y < b && s1[x] == '.' && s1[y] == '.';
        assert(a <= x < y < b && s2[x] == '.' && s2[y] == '.');
    }
    if two_points(s2, a, b) {
        let (x, y) = choose|x: int, y: int| a <= x < y < b && s2[x] == '.' && s2[y] == '.';
        assert(a <= x < y < b && s1[x] == '.' && s1[y] == '.');
    }
}

/// In such texts, what the scanner finds in the first at a position before
/// `n`, and ends at or before `n`, it finds in the second.
pub proof fn lemma_scan_before_comment(s1: Seq<char>, s2: Seq<char>, n: int, k: int)
    requires
        same_up_to_comment(s1, s2, n),
        0 <= k < n,
        match scan(s1, k) {
            Scan::Skip { next } => next <= n,
            Scan::Emit { token, next } => next <= n,
            Scan::Fail { error } => false,
        },
    ensures
        scan(s2, k) == scan(s1, k),
{
    assert(s1[k] == s2[k]);
    lemma_spells_before_comment(s1, s2, n, k, let_word());
    lemma_spells_before_comment(s1, s2, n, k, print_word());
    lemma_run_end(s1, k, Run::Comment);
    lemma_run_end(s1, k + 1, Run::Name);
    lemma_run_end(s1, k + 1, Run::Text);
    lemma_run_end(s1, k, Run::Number);
    if run_end(s1, k, Run::Comment) <= n {
        lemma_run_end_before_comment(s1, s2, n, k, Run::Comment);
    }
    if run_end(s1, k + 1, Run::Name) <= n {
        lemma_run_end_before_comment(s1, s2, n, k + 1, Run::Name);
        let j = run_end(s1, k + 1, Run::Name);
        assert(s1.subrange(k, j) =~= s2.subrange(k, j));
    }
    if run_end(s1, k + 1, Run::Text) <= n {
        lemma_run_end_before_comment(s1, s2, n, k + 1, Run::Text);
        let j = run_end(s1, k + 1, Run::Text);
        assert(s1.subrange(k + 1, j) =~= s2.subrange(k + 1, j));
    }
    if run_end(s1, k, Run::Number) <= n {
        lemma_run_end_before_comment(s1, s2, n, k, Run::Number);
        let j = run_end(s1, k, Run::Number);
        assert(s1.subrange(k, j) =~= s2.subrange(k, j));
        lemma_two_points_before_comment(s1, s2, n, k, j);
    }
}

/// In such texts, where the scanner comes to `n` in the first and goes on
/// from `n` alike in both, it finds the same in both from any position on
/// its way.
pub proof fn lemma_lex_before_comment(
    s1: Seq<char>,
    s2: Seq<char>,
    n: int,
    i: int,
    done: Seq<TokenView>,
)
    requires
        same_up_to_comment(s1, s2, n),
        0 <= i <= n,
        comes_to(s1, i, n),
        forall|d: Seq<TokenView>| #[trigger] lex_from(s1, n, d) == lex_from(s2, n, d),
    ensures
        lex_from(s1, i, done) == lex_from(s2, i, done),
    decreases n - i,
{
    if i < n {
        lemma_scan_before_comment(s1, s2, n, i);
        match scan(s1, i) {
            Scan::Skip { next } => {
                lemma_lex_before_comment(s1, s2, n, next, done);
            },
            Scan::Emit { token, next } => {
                lemma_lex_before_comment(s1, s2, n, next, done.push(token));
            },
            Scan::Fail { error } => {},
        }
    }
}

/// A comment changes nothing. Where a text reads `before`, then a comment,
/// then `after` (nothing, or a line feed and more), and the scanner comes
/// to the comment, the text has the tokens, or the error, that it has with
/// the comment cut out.
pub proof fn lemma_comment_changes_nothing(
    before: Seq<char>,
    comment: Seq<char>,
    after: Seq<char>,
)
    requires
        comment.len() > 0,
        comment[0] == '#',
        forall|k: int| 0 <= k < comment.len() ==> #[trigger] comment[k] != '\n',
        after.len() > 0 ==> after[0] == '\n',
        comes_to(before + comment + after, 0, before.len() as int),
    ensures
        lex(before + comment + after) == lex(before + after),
{
    let with = before + comment + after;
    let without = before + after;
    let n = before.len() as int;
    assert(with[n] == comment[0]);
    if n < without.len() {
        assert(without[n] == after[0]);
    }
    assert forall|k: int| 0 <= k < n implies with[k] == without[k] by {
        assert(with[k] == before[k]);
        assert(without[k] == before[k]);
    }
    assert forall|d: Seq<TokenView>| #[trigger] lex_from(with, n, d) == lex_from(without, n, d) by {
        lemma_comment_absent(before, comment, after, d);
    }
    lemma_lex_before_comment(with, without, n, 0, Seq::empty());
}

} // verus!
