//! The fixed text patterns that the markup mappers rewrite, with the same
//! matches as the regular expressions that describe them: the leftmost match
//! is taken, matches do not overlap, and the text between them is kept.
use vstd::prelude::*;
use crate::text::{all_chars, index_of, lemma_all_chars_prepend, lemma_all_chars_skip, index_of_from, is_white_space, is_whitespace, lemma_index_of, push_chars, sub_chars};

verus! {

/// A pattern that a mapper replaces.
pub enum Pattern {
    /// `\([^)]*\)`: an opening parenthesis up to the first closing one.
    Parenthesized,
    /// `https?://[^\s]+`: a web address up to the next white space.
    Url,
    /// Three backticks, anything (line breaks too), then the next three
    /// backticks: a fenced code block, fences included.
    CodeBlock,
    /// `~~(.+?)~~`: struck-through text on one line.
    Strikethrough,
    /// `\[([^\]]+)\]\([^)]+\)`: a link with its label and target.
    MarkdownLink,
}

/// `s` starts with `prefix`.
pub open spec fn starts_with(s: Seq<char>, prefix: Seq<char>) -> bool {
    prefix.len() <= s.len() && s.take(prefix.len() as int) == prefix
}

/// The length of the scheme `https://` or `http://` at the start of `s`, or 0.
pub open spec fn url_prefix_len(s: Seq<char>) -> int {
    if starts_with(s, seq!['h', 't', 't', 'p', 's', ':', '/', '/']) {
        8
    } else if starts_with(s, seq!['h', 't', 't', 'p', ':', '/', '/']) {
        7
    } else {
        0
    }
}

/// The length of the run of characters other than white space at the start of `s`.
pub open spec fn non_space_run_len(s: Seq<char>) -> int
    decreases s.len(),
{
    if s.len() > 0 && !is_white_space(s[0]) {
        1 + non_space_run_len(s.drop_first())
    } else {
        0
    }
}

/// The index of the first three backticks in `s`, or `s.len()` when there are none.
pub open spec fn fence_index(s: Seq<char>) -> int
    decreases s.len(),
{
    if s.len() < 3 {
        s.len() as int
    } else if s[0] == '`' && s[1] == '`' && s[2] == '`' {
        0
    } else {
        1 + fence_index(s.drop_first())
    }
}

/// The smallest `k >= j` such that `t[k..k + 2]` is `~~` and `t[..k]` holds
/// no line break, or `t.len()` when there is none (`j >= 1`).
pub open spec fn strike_close_from(t: Seq<char>, j: int) -> int
    decreases t.len() - j,
{
    if j < 1 || j + 2 > t.len() {
        t.len() as int
    } else if t[j - 1] == '\n' {
        t.len() as int
    } else if t[j] == '~' && t[j + 1] == '~' {
        j
    } else {
        strike_close_from(t, j + 1)
    }
}

/// The length of the match of `p` that starts at `s[0]`, or 0 when none does.
pub open spec fn match_len(p: Pattern, s: Seq<char>) -> int {
    match p {
        Pattern::Parenthesized => {
            let j = index_of(s.drop_first(), ')');
            if s.len() > 0 && s[0] == '(' && j < s.len() - 1 {
                j + 2
            } else {
                0
            }
        },
        Pattern::Url => {
            let k = url_prefix_len(s);
            let r = non_space_run_len(s.skip(k));
            if k > 0 && r >= 1 {
                k + r
            } else {
                0
            }
        },
        Pattern::CodeBlock => {
            let j = fence_index(s.skip(3));
            if s.len() >= 3 && s[0] == '`' && s[1] == '`' && s[2] == '`' && j < s.len() - 3 {
                j + 6
            } else {
                0
            }
        },
        Pattern::Strikethrough => {
            let t = s.skip(2);
            let j = strike_close_from(t, 1);
            if s.len() >= 2 && s[0] == '~' && s[1] == '~' && j < t.len() {
                j + 4
            } else {
                0
            }
        },
        Pattern::MarkdownLink => {
            let a = index_of(s.drop_first(), ']');
            let b = index_of(s.skip(a + 3), ')');
            if s.len() > 0 && s[0] == '[' && a >= 1 && a + 2 < s.len() && s[a + 2] == '('
                && b >= 1 && a + 3 + b < s.len() {
                a + b + 4
            } else {
                0
            }
        },
    }
}

/// What a match of `p` at the start of `s` is replaced with.
pub open spec fn replacement(p: Pattern, s: Seq<char>) -> Seq<char> {
    match p {
        Pattern::Parenthesized => Seq::empty(),
        Pattern::Url => "링크"@,
        Pattern::CodeBlock => "코드"@,
        Pattern::Strikethrough => s.subrange(2, match_len(p, s) - 2),
        Pattern::MarkdownLink => "링크와 함께 "@ + s.subrange(1, 1 + index_of(s.drop_first(), ']')),
    }
}

/// `s` with every match of `p` replaced.
pub open spec fn replaced(p: Pattern, s: Seq<char>) -> Seq<char>
    decreases s.len(),
{
    if s.len() == 0 {
        Seq::empty()
    } else {
        let m = match_len(p, s);
        if 0 < m <= s.len() {
            replacement(p, s) + replaced(p, s.skip(m))
        } else {
            seq![s[0]] + replaced(p, s.drop_first())
        }
    }
}

proof fn lemma_non_space_run_len(s: Seq<char>)
    ensures
        0 <= non_space_run_len(s) <= s.len(),
    decreases s.len(),
{
    if s.len() > 0 {
        lemma_non_space_run_len(s.drop_first());
    }
}

proof fn lemma_fence_index(s: Seq<char>)
    ensures
        0 <= fence_index(s) <= s.len(),
        fence_index(s) < s.len() ==> fence_index(s) + 3 <= s.len(),
    decreases s.len(),
{
    if s.len() >= 3 && !(s[0] == '`' && s[1] == '`' && s[2] == '`') {
        lemma_fence_index(s.drop_first());
    }
}

proof fn lemma_strike_close(t: Seq<char>, j: int)
    requires
        j >= 1,
    ensures
        strike_close_from(t, j) <= t.len(),
        strike_close_from(t, j) < t.len() ==> j <= strike_close_from(t, j) && strike_close_from(t, j) + 2 <= t.len(),
    decreases t.len() - j,
{
    if j + 2 <= t.len() && t[j - 1] != '\n' && !(t[j] == '~' && t[j + 1] == '~') {
        lemma_strike_close(t, j + 1);
    }
}

/// `fence_index(s@.skip(from))`, counted from the start of `s`.
fn fence_from(s: &Vec<char>, from: usize) -> (r: usize)
    requires
        from <= s.len(),
    ensures
        r == from + fence_index(s@.skip(from as int)),
{
    let n = s.len();
    let mut i = from;
    while n - i >= 3 && !(s[i] == '`' && s[i + 1] == '`' && s[i + 2] == '`')
        invariant
            from <= i <= n == s.len(),
            fence_index(s@.skip(from as int)) == (i - from) + fence_index(s@.skip(i as int)),
        decreases n - i,
    {
        assert(s@.skip(i as int).drop_first() =~= s@.skip(i + 1));
        i += 1;
    }
    if n - i < 3 {
        n
    } else {
        i
    }
}

/// The end of the run of characters other than white space that starts at `from`.
fn non_space_end(s: &Vec<char>, from: usize) -> (r: usize)
    requires
        from <= s.len(),
    ensures
        r == from + non_space_run_len(s@.skip(from as int)),
{
    let mut i = from;
    while i < s.len() && !is_whitespace(s[i])
        invariant
            from <= i <= s.len(),
            non_space_run_len(s@.skip(from as int)) == (i - from) + non_space_run_len(
                s@.skip(i as int),
            ),
        decreases s.len() - i,
    {
        assert(s@.skip(i as int).drop_first() =~= s@.skip(i + 1));
        i += 1;
    }
    i
}

/// `strike_close_from(s@.skip(base), j - base)`, counted from the start of `s`.
fn strike_close(s: &Vec<char>, base: usize) -> (r: usize)
    requires
        base <= s.len(),
    ensures
        r == base + strike_close_from(s@.skip(base as int), 1),
{
    let ghost t = s@.skip(base as int);
    let n = s.len();
    let mut j: usize = 1;
    while n - base >= 2 && j <= n - base - 2 && s[base + j - 1] != '\n' && !(s[base + j] == '~'
        && s[base + j + 1] == '~')
        invariant
            base <= n == s.len(),
            t == s@.skip(base as int),
            1 <= j,
            strike_close_from(t, 1) == strike_close_from(t, j as int),
        decreases n - base - j,
    {
        j += 1;
    }
    if n - base < 2 || j > n - base - 2 || s[base + j - 1] == '\n' {
        n
    } else {
        base + j
    }
}

/// `url_prefix_len(s@.skip(i))`.
fn url_prefix_at(s: &Vec<char>, i: usize) -> (r: usize)
    requires
        i <= s.len(),
    ensures
        r == url_prefix_len(s@.skip(i as int)),
{
    let ghost t = s@.skip(i as int);
    let n = s.len();
    if n - i >= 8 && s[i] == 'h' && s[i + 1] == 't' && s[i + 2] == 't' && s[i + 3] == 'p' && s[i
        + 4] == 's' && s[i + 5] == ':' && s[i + 6] == '/' && s[i + 7] == '/' {
        assert(t.take(8) =~= seq!['h', 't', 't', 'p', 's', ':', '/', '/']);
        8
    } else if n - i >= 7 && s[i] == 'h' && s[i + 1] == 't' && s[i + 2] == 't' && s[i + 3] == 'p'
        && s[i + 4] == ':' && s[i + 5] == '/' && s[i + 6] == '/' {
        assert(t.take(7) =~= seq!['h', 't', 't', 'p', ':', '/', '/']);
        assert(!starts_with(t, seq!['h', 't', 't', 'p', 's', ':', '/', '/'])) by {
            if starts_with(t, seq!['h', 't', 't', 'p', 's', ':', '/', '/']) {
                assert(t.take(8)[4] == 's');
            }
        }
        7
    } else {
        assert(!starts_with(t, seq!['h', 't', 't', 'p', 's', ':', '/', '/'])) by {
            if starts_with(t, seq!['h', 't', 't', 'p', 's', ':', '/', '/']) {
                let w = seq!['h', 't', 't', 'p', 's', ':', '/', '/'];
                assert(t.take(8)[0] == w[0] && t.take(8)[1] == w[1] && t.take(8)[2] == w[2]
                    && t.take(8)[3] == w[3] && t.take(8)[4] == w[4] && t.take(8)[5] == w[5]
                    && t.take(8)[6] == w[6] && t.take(8)[7] == w[7]);
            }
        }
        assert(!starts_with(t, seq!['h', 't', 't', 'p', ':', '/', '/'])) by {
            if starts_with(t, seq!['h', 't', 't', 'p', ':', '/', '/']) {
                let w = seq!['h', 't', 't', 'p', ':', '/', '/'];
                assert(t.take(7)[0] == w[0] && t.take(7)[1] == w[1] && t.take(7)[2] == w[2]
                    && t.take(7)[3] == w[3] && t.take(7)[4] == w[4] && t.take(7)[5] == w[5]
                    && t.take(7)[6] == w[6]);
            }
        }
        0
    }
}

/// `match_len(p, s@.skip(i))`.
fn match_len_at(p: &Pattern, s: &Vec<char>, i: usize) -> (r: usize)
    requires
        i < s.len(),
    ensures
        r == match_len(*p, s@.skip(i as int)),
        r <= s.len() - i,
{
    let ghost t = s@.skip(i as int);
    let n = s.len();
    match p {
        Pattern::Parenthesized => {
            proof {
                assert(t.drop_first() =~= s@.skip(i + 1));
                lemma_index_of(t.drop_first(), ')');
            }
            if s[i] == '(' {
                let j = index_of_from(s, i + 1, ')');
                if j < n {
                    return j - i + 1;
                }
            }
            0
        },
        Pattern::Url => {
            let k = url_prefix_at(s, i);
            if k == 0 {
                return 0;
            }
            assert(t.skip(k as int) =~= s@.skip(i + k));
            let e = non_space_end(s, i + k);
            proof {
                lemma_non_space_run_len(s@.skip(i + k));
            }
            if e > i + k {
                e - i
            } else {
                0
            }
        },
        Pattern::CodeBlock => {
            if n - i >= 3 && s[i] == '`' && s[i + 1] == '`' && s[i + 2] == '`' {
                assert(t.skip(3) =~= s@.skip(i + 3));
                let j = fence_from(s, i + 3);
                proof {
                    lemma_fence_index(s@.skip(i + 3));
                }
                if j < n {
                    return j - i + 3;
                }
            }
            0
        },
        Pattern::Strikethrough => {
            if n - i >= 2 && s[i] == '~' && s[i + 1] == '~' {
                assert(t.skip(2) =~= s@.skip(i + 2));
                let j = strike_close(s, i + 2);
                proof {
                    lemma_strike_close(s@.skip(i + 2), 1);
                }
                if j < n {
                    return j - i + 2;
                }
            }
            0
        },
        Pattern::MarkdownLink => {
            if s[i] != '[' {
                return 0;
            }
            assert(t.drop_first() =~= s@.skip(i + 1));
            let a_end = index_of_from(s, i + 1, ']');
            proof {
                lemma_index_of(s@.skip(i + 1), ']');
            }
            let a = a_end - (i + 1);
            if a < 1 || n - i < 3 || a >= n - i - 2 || s[i + a + 2] != '(' {
                return 0;
            }
            assert(t.skip(a + 3) =~= s@.skip(i + a + 3));
            let b_end = index_of_from(s, i + a + 3, ')');
            proof {
                lemma_index_of(s@.skip(i + a + 3), ')');
            }
            let b = b_end - (i + a + 3);
            if b >= 1 && b_end < n {
                a + b + 4
            } else {
                0
            }
        },
    }
}

/// Appends the replacement of the match of `p` of length `m` that starts at `s[i]`.
fn push_replacement(p: &Pattern, out: &mut String, s: &Vec<char>, i: usize, m: usize)
    requires
        i < s.len(),
        m == match_len(*p, s@.skip(i as int)),
        0 < m <= s.len() - i,
    ensures
        final(out)@ == old(out)@ + replacement(*p, s@.skip(i as int)),
{
    let ghost t = s@.skip(i as int);
    match p {
        Pattern::Parenthesized => {
            assert(old(out)@ + Seq::<char>::empty() =~= old(out)@);
        },
        Pattern::Url => {
            out.append("링크");
        },
        Pattern::CodeBlock => {
            out.append("코드");
        },
        Pattern::Strikethrough => {
            proof {
                lemma_strike_close(t.skip(2), 1);
            }
            let inner = sub_chars(s, i + 2, i + m - 2);
            assert(inner@ =~= t.subrange(2, m - 2));
            push_chars(out, &inner);
        },
        Pattern::MarkdownLink => {
            assert(t.drop_first() =~= s@.skip(i + 1));
            let a_end = index_of_from(s, i + 1, ']');
            proof {
                lemma_index_of(s@.skip(i + 1), ']');
            }
            out.append("링크와 함께 ");
            let label = sub_chars(s, i + 1, a_end);
            assert(label@ =~= t.subrange(1, 1 + index_of(t.drop_first(), ']')));
            push_chars(out, &label);
        },
    }
}

/// Replaces every match of `p` in `s`.
pub fn replace_pattern(p: Pattern, s: &Vec<char>) -> (r: String)
    ensures
        r@ == replaced(p, s@),
{
    let n = s.len();
    let mut out = String::new();
    let mut i: usize = 0;
    assert(s@.skip(0) =~= s@);
    while i < n
        invariant
            i <= n == s.len(),
            replaced(p, s@) == out@ + replaced(p, s@.skip(i as int)),
        decreases n - i,
    {
        let ghost rest = s@.skip(i as int);
        let m = match_len_at(&p, s, i);
        if m > 0 {
            push_replacement(&p, &mut out, s, i, m);
            assert(rest.skip(m as int) =~= s@.skip(i + m));
            i += m;
        } else {
            out.push(s[i]);
            assert(rest.drop_first() =~= s@.skip(i + 1));
            i += 1;
        }
    }
    assert(s@.skip(n as int).len() == 0);
    out
}

/// `s` holds an opening parenthesis with a closing one somewhere after it.
pub open spec fn has_parenthesized(s: Seq<char>) -> bool {
    exists|i: int, j: int| 0 <= i < j < s.len() && s[i] == '(' && s[j] == ')'
}

proof fn lemma_parentheses_removed_keeps(s: Seq<char>, p: spec_fn(char) -> bool)
    requires
        all_chars(s, p),
    ensures
        all_chars(replaced(Pattern::Parenthesized, s), p),
    decreases s.len(),
{
    if s.len() > 0 {
        let m = match_len(Pattern::Parenthesized, s);
        if 0 < m <= s.len() {
            lemma_all_chars_skip(s, p, m);
            lemma_parentheses_removed_keeps(s.skip(m), p);
            assert(Seq::<char>::empty() + replaced(Pattern::Parenthesized, s.skip(m)) =~= replaced(
                Pattern::Parenthesized,
                s.skip(m),
            ));
        } else {
            lemma_all_chars_skip(s, p, 1);
            assert(s.skip(1) =~= s.drop_first());
            lemma_parentheses_removed_keeps(s.drop_first(), p);
            lemma_all_chars_prepend(s[0], replaced(Pattern::Parenthesized, s.drop_first()), p);
        }
    }
}

/// After the removal no parenthesized aside is left: no `'('` has a `')'` after it.
pub proof fn lemma_parentheses_removed_completely(s: Seq<char>)
    ensures
        !has_parenthesized(replaced(Pattern::Parenthesized, s)),
    decreases s.len(),
{
    if s.len() > 0 {
        let m = match_len(Pattern::Parenthesized, s);
        let r = replaced(Pattern::Parenthesized, s);
        if 0 < m <= s.len() {
            lemma_parentheses_removed_completely(s.skip(m));
            assert(r =~= replaced(Pattern::Parenthesized, s.skip(m)));
        } else {
            let t = s.drop_first();
            let rest = replaced(Pattern::Parenthesized, t);
            lemma_parentheses_removed_completely(t);
            assert(r == seq![s[0]] + rest);
            if s[0] == '(' {
                lemma_index_of(t, ')');
                let no_close = |c: char| c != ')';
                assert(all_chars(t, no_close));
                lemma_parentheses_removed_keeps(t, no_close);
            }
            if has_parenthesized(r) {
                let (i, j) = choose|i: int, j: int|
                    0 <= i < j < r.len() && r[i] == '(' && r[j] == ')';
                assert(r[j] == rest[j - 1]);
                if i > 0 {
                    assert(r[i] == rest[i - 1]);
                    assert(has_parenthesized(rest));
                }
            }
        }
    }
}

/// Three backticks, the fence of a code block.
pub open spec fn fence() -> Seq<char> {
    seq!['`', '`', '`']
}

/// Three backticks stand at `s[k]`.
pub open spec fn fence_at(s: Seq<char>, k: int) -> bool {
    0 <= k && k + 3 <= s.len() && s[k] == '`' && s[k + 1] == '`' && s[k + 2] == '`'
}

/// A run of characters other than white space ends at the end of the text or
/// at a white-space character: a web address takes every character up to the
/// next white space.
pub proof fn lemma_non_space_run_ends_at_space(s: Seq<char>)
    ensures
        0 <= non_space_run_len(s) <= s.len(),
        forall|k: int| 0 <= k < non_space_run_len(s) ==> !is_white_space(#[trigger] s[k]),
        non_space_run_len(s) == s.len() || is_white_space(s[non_space_run_len(s)]),
    decreases s.len(),
{
    if s.len() > 0 && !is_white_space(s[0]) {
        let t = s.drop_first();
        lemma_non_space_run_ends_at_space(t);
        assert forall|k: int| 0 <= k < non_space_run_len(s) implies !is_white_space(#[trigger] s[k]) by {
            if k > 0 {
                assert(s[k] == t[k - 1]);
            }
        }
        if non_space_run_len(t) < t.len() {
            assert(s[non_space_run_len(s)] == t[non_space_run_len(t)]);
        }
    }
}

/// `fence_index` finds the first three backticks: none stand before it, and
/// three stand at it unless it is the end of the text.
pub proof fn lemma_fence_index_is_first(s: Seq<char>)
    ensures
        0 <= fence_index(s) <= s.len(),
        fence_index(s) < s.len() ==> fence_at(s, fence_index(s)),
        forall|k: int| 0 <= k < fence_index(s) ==> !#[trigger] fence_at(s, k),
    decreases s.len(),
{
    if s.len() >= 3 && !(s[0] == '`' && s[1] == '`' && s[2] == '`') {
        let t = s.drop_first();
        lemma_fence_index_is_first(t);
        assert forall|k: int| 0 <= k < fence_index(s) implies !#[trigger] fence_at(s, k) by {
            if k > 0 {
                assert(fence_at(s, k) == fence_at(t, k - 1));
            }
        }
        if fence_index(t) < t.len() {
            assert(fence_at(s, fence_index(s)) == fence_at(t, fence_index(t)));
        }
    } else if s.len() < 3 {
        assert forall|k: int| 0 <= k < fence_index(s) implies !#[trigger] fence_at(s, k) by {}
    }
}

/// `strike_close_from(t, j)` finds the first `~~` at or after `j` on the line:
/// none stands between `j` and it, no line break comes before it, and when
/// it is the end of the text no `~~` follows `j` before a line break.
pub proof fn lemma_strike_close_is_first(t: Seq<char>, j: int)
    requires
        j >= 1,
    ensures
        strike_close_from(t, j) <= t.len(),
        strike_close_from(t, j) < t.len() ==> {
            let c = strike_close_from(t, j);
            &&& j <= c
            &&& c + 2 <= t.len()
            &&& t[c] == '~' && t[c + 1] == '~'
            &&& forall|m: int| j - 1 <= m < c ==> #[trigger] t[m] != '\n'
            &&& forall|k: int| j <= k < c ==> !(#[trigger] t[k] == '~' && t[k + 1] == '~')
        },
        strike_close_from(t, j) == t.len() ==> forall|k: int|
            j <= k && k + 2 <= t.len() && (forall|m: int| j - 1 <= m < k ==> #[trigger] t[m] != '\n')
                ==> !(#[trigger] t[k] == '~' && t[k + 1] == '~'),
    decreases t.len() - j,
{
    if j + 2 <= t.len() && t[j - 1] != '\n' && !(t[j] == '~' && t[j + 1] == '~') {
        lemma_strike_close_is_first(t, j + 1);
        let c = strike_close_from(t, j);
        if c < t.len() {
            assert forall|k: int| j <= k < c implies !(#[trigger] t[k] == '~' && t[k + 1] == '~') by {
                if k > j {
                    assert(j + 1 <= k < strike_close_from(t, j + 1));
                }
            }
            assert forall|m: int| j - 1 <= m < c implies #[trigger] t[m] != '\n' by {
                if m > j - 1 {
                    assert(j <= m < strike_close_from(t, j + 1));
                }
            }
        }
        if c == t.len() {
            assert forall|k: int|
                j <= k && k + 2 <= t.len() && (forall|m: int| j - 1 <= m < k ==> #[trigger] t[m] != '\n')
                implies !(#[trigger] t[k] == '~' && t[k + 1] == '~') by {
                if k > j {
                    assert forall|m: int| j <= m < k implies #[trigger] t[m] != '\n' by {
                        assert(j - 1 <= m < k);
                    }
                }
            }
        }
    } else if j + 2 <= t.len() && t[j - 1] == '\n' {
        assert forall|k: int|
            j <= k && k + 2 <= t.len() && (forall|m: int| j - 1 <= m < k ==> #[trigger] t[m] != '\n')
            implies !(#[trigger] t[k] == '~' && t[k + 1] == '~') by {
            assert(j - 1 <= j - 1 < k);
        }
    }
}

/// A web address reads "링크" as a whole: the scheme and every character up
/// to the end of the text when no white space follows.
pub proof fn lemma_url_whole(x: Seq<char>, secure: bool)
    requires
        x.len() > 0,
        forall|k: int| 0 <= k < x.len() ==> !is_white_space(#[trigger] x[k]),
    ensures
        replaced(
            Pattern::Url,
            (if secure { seq!['h', 't', 't', 'p', 's', ':', '/', '/'] } else { seq!['h', 't', 't', 'p', ':', '/', '/'] }) + x,
        ) == "링크"@,
{
    let p = if secure { seq!['h', 't', 't', 'p', 's', ':', '/', '/'] } else { seq!['h', 't', 't', 'p', ':', '/', '/'] };
    let s = p + x;
    assert(s.take(p.len() as int) =~= p);
    if !secure {
        assert(!starts_with(s, seq!['h', 't', 't', 'p', 's', ':', '/', '/'])) by {
            if starts_with(s, seq!['h', 't', 't', 'p', 's', ':', '/', '/']) {
                assert(s.take(8)[4] == 's');
                assert(s[4] == ':');
            }
        }
    }
    assert(url_prefix_len(s) == p.len());
    assert(s.skip(p.len() as int) =~= x);
    lemma_non_space_run_ends_at_space(x);
    assert(non_space_run_len(x) == x.len());
    assert(match_len(Pattern::Url, s) == s.len());
    assert(s.skip(s.len() as int).len() == 0);
    assert(replaced(Pattern::Url, s) == "링크"@ + replaced(Pattern::Url, s.skip(s.len() as int)));
    assert("링크"@ + Seq::<char>::empty() =~= "링크"@);
}

/// A fenced block reads "코드" as a whole, whatever it holds (spaces and line
/// breaks too), when its closing fence is the first three backticks after
/// the opening one.
pub proof fn lemma_code_block_whole(x: Seq<char>)
    requires
        forall|k: int| 0 <= k < x.len() ==> !#[trigger] fence_at(x + fence(), k),
    ensures
        replaced(Pattern::CodeBlock, fence() + x + fence()) == "코드"@,
{
    let f = fence();
    let s = f + x + f;
    let t = x + f;
    assert(s.skip(3) =~= t);
    lemma_fence_index_is_first(t);
    assert(fence_at(t, x.len() as int));
    let j = fence_index(t);
    if j < x.len() {
        assert(fence_at(t, j));
    }
    if j > x.len() {
        assert(!fence_at(t, x.len() as int));
    }
    assert(j == x.len());
    assert(s[0] == '`' && s[1] == '`' && s[2] == '`');
    assert(match_len(Pattern::CodeBlock, s) == s.len());
    assert(s.skip(s.len() as int).len() == 0);
    assert(replaced(Pattern::CodeBlock, s) == "코드"@ + replaced(Pattern::CodeBlock, s.skip(s.len() as int)));
    assert("코드"@ + Seq::<char>::empty() =~= "코드"@);
}

/// Struck-through text on one line keeps its words, spaces included, and
/// loses its tildes.
pub proof fn lemma_strikethrough_text_kept(x: Seq<char>)
    requires
        x.len() > 0,
        forall|k: int| 0 <= k < x.len() ==> #[trigger] x[k] != '\n',
        forall|k: int| 0 <= k < x.len() - 1 ==> !(#[trigger] x[k] == '~' && x[k + 1] == '~'),
    ensures
        replaced(Pattern::Strikethrough, seq!['~', '~'] + x + seq!['~', '~']) == x,
{
    let w = seq!['~', '~'];
    let s = w + x + w;
    let t = x + w;
    assert(s.skip(2) =~= t);
    let n = x.len() as int;
    let e = if n >= 2 && x[n - 1] == '~' { n - 1 } else { n };
    lemma_strike_close_is_first(t, 1);
    let c = strike_close_from(t, 1);
    assert(t[e] == '~' && t[e + 1] == '~');
    assert forall|m: int| 0 <= m < e implies #[trigger] t[m] != '\n' by {
        assert(t[m] == x[m]);
    }
    assert forall|k: int| 1 <= k < e implies !(#[trigger] t[k] == '~' && t[k + 1] == '~') by {
        assert(t[k] == x[k]);
        if k + 1 < n {
            assert(t[k + 1] == x[k + 1]);
        }
    }
    if c < e {
        assert(t[c] == '~' && t[c + 1] == '~');
    }
    if c > e {
        if c < t.len() {
            assert(!(t[e] == '~' && t[e + 1] == '~'));
        } else {
            assert(forall|m: int| 0 <= m < e ==> #[trigger] t[m] != '\n');
            assert(!(t[e] == '~' && t[e + 1] == '~'));
        }
    }
    assert(c == e);
    assert(s[0] == '~' && s[1] == '~');
    let m = e + 4;
    assert(match_len(Pattern::Strikethrough, s) == m);
    assert(replacement(Pattern::Strikethrough, s) =~= x.take(e));
    let rest = s.skip(m);
    assert(replaced(Pattern::Strikethrough, s) == x.take(e) + replaced(Pattern::Strikethrough, rest));
    if e == n {
        assert(rest.len() == 0);
        assert(x.take(e) + Seq::<char>::empty() =~= x);
    } else {
        assert(rest =~= seq!['~']);
        assert(rest.drop_first().len() == 0);
        assert(match_len(Pattern::Strikethrough, rest) == 0);
        assert(replaced(Pattern::Strikethrough, rest) == seq!['~'] + replaced(
            Pattern::Strikethrough,
            rest.drop_first(),
        ));
        assert(replaced(Pattern::Strikethrough, rest) =~= seq!['~']);
        assert(x.take(e) + seq!['~'] =~= x);
    }
}

proof fn lemma_index_of_at(a: Seq<char>, rest: Seq<char>, c: char)
    requires
        forall|k: int| 0 <= k < a.len() ==> #[trigger] a[k] != c,
        rest.len() > 0,
        rest[0] == c,
    ensures
        index_of(a + rest, c) == a.len(),
{
    let s = a + rest;
    lemma_index_of(s, c);
    let j = index_of(s, c);
    assert(s[a.len() as int] == c);
    if j < a.len() {
        assert(s[j] == a[j]);
    }
}

/// A link `[label](target)` reads "링크와 함께 " and its label; the target is
/// not read.
pub proof fn lemma_markdown_link_label(label: Seq<char>, target: Seq<char>)
    requires
        label.len() > 0,
        target.len() > 0,
        forall|k: int| 0 <= k < label.len() ==> #[trigger] label[k] != ']',
        forall|k: int| 0 <= k < target.len() ==> #[trigger] target[k] != ')',
    ensures
        replaced(Pattern::MarkdownLink, seq!['['] + label + seq![']', '('] + target + seq![')'])
            == "링크와 함께 "@ + label,
{
    let s = seq!['['] + label + seq![']', '('] + target + seq![')'];
    let a = label.len() as int;
    assert(s.drop_first() =~= label + (seq![']', '('] + target + seq![')']));
    lemma_index_of_at(label, seq![']', '('] + target + seq![')'], ']');
    assert(s.skip(a + 3) =~= target + seq![')']);
    lemma_index_of_at(target, seq![')'], ')');
    assert(s[0] == '[' && s[a + 2] == '(');
    assert(match_len(Pattern::MarkdownLink, s) == s.len());
    assert(s.subrange(1, 1 + a) =~= label);
    assert(s.skip(s.len() as int).len() == 0);
    assert(replaced(Pattern::MarkdownLink, s) == replacement(Pattern::MarkdownLink, s) + replaced(
        Pattern::MarkdownLink,
        s.skip(s.len() as int),
    ));
    assert(replacement(Pattern::MarkdownLink, s) + Seq::<char>::empty() =~= "링크와 함께 "@ + label);
}

/// An aside in parentheses is removed whole, whatever it holds but a closing
/// parenthesis.
pub proof fn lemma_parenthesized_removed_whole(x: Seq<char>)
    requires
        forall|k: int| 0 <= k < x.len() ==> #[trigger] x[k] != ')',
    ensures
        replaced(Pattern::Parenthesized, seq!['('] + x + seq![')']).len() == 0,
{
    let s = seq!['('] + x + seq![')'];
    assert(s.drop_first() =~= x + seq![')']);
    lemma_index_of_at(x, seq![')'], ')');
    assert(match_len(Pattern::Parenthesized, s) == s.len());
    assert(s.skip(s.len() as int).len() == 0);
    assert(replaced(Pattern::Parenthesized, s) == replacement(Pattern::Parenthesized, s) + replaced(
        Pattern::Parenthesized,
        s.skip(s.len() as int),
    ));
}

} // verus!
