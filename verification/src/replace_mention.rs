//! Reads Discord mentions by name: `<@id>` becomes the user's nickname and
//! "호출", `<#id>` the channel's name. Looking the ids up is left to the
//! caller: these functions find the ids and write the names in.
use vstd::prelude::*;
use crate::text::chars_of;

verus! {

/// Whether `c` is in the `regex` crate's class `\d` (Unicode decimal digits).
pub uninterp spec fn regex_digit(c: char) -> bool;

/// `Regex::is_match` of `^\d$` on the one-character string `c`: whether `c`
/// is a decimal digit to the `regex` crate. Claimed: a function of `c`
/// alone; the Unicode table is not restated here.
#[verifier::external_body]
fn is_regex_digit(c: char) -> (r: bool)
    ensures
        r == regex_digit(c),
{
    regex::Regex::new("^\\d$").unwrap().is_match(&c.to_string())
}

/// A user as the host reports it.
pub struct User {
    pub username: String,
    pub global_nickname: Option<String>,
    pub guild_nickname: Option<String>,
}

/// The words that replace a user mention: the server nickname, else the
/// global nickname, else the user name ("모름" for an unknown user), then "호출".
pub open spec fn user_label(user: Option<User>) -> Seq<char> {
    let name = match user {
        Some(u) => match u.guild_nickname {
            Some(n) => n@,
            None => match u.global_nickname {
                Some(n) => n@,
                None => u.username@,
            },
        },
        None => "모름"@,
    };
    name + " 호출"@
}

/// The words that replace a channel mention: its name, or "채널" when unknown.
pub open spec fn channel_label(name: Option<String>) -> Seq<char> {
    match name {
        Some(n) => n@,
        None => "채널"@,
    }
}

/// The length of the run of `\d` characters at the start of `s`.
pub open spec fn regex_digit_run_len(s: Seq<char>) -> int
    decreases s.len(),
{
    if s.len() > 0 && regex_digit(s[0]) {
        1 + regex_digit_run_len(s.drop_first())
    } else {
        0
    }
}

/// The length of the mention `<{sigil}digits>` at the start of `s`, or 0.
pub open spec fn mention_len(s: Seq<char>, sigil: char) -> int {
    let d = regex_digit_run_len(s.skip(2));
    if s.len() >= 3 && s[0] == '<' && s[1] == sigil && d >= 1 && 2 + d < s.len() && s[2 + d]
        == '>' {
        d + 3
    } else {
        0
    }
}

/// The ids of the mentions `<{sigil}id>` of `s`, in order.
pub open spec fn mention_ids(s: Seq<char>, sigil: char) -> Seq<Seq<char>>
    decreases s.len(),
{
    if s.len() == 0 {
        Seq::empty()
    } else {
        let m = mention_len(s, sigil);
        if 0 < m <= s.len() {
            seq![s.subrange(2, m - 1)] + mention_ids(s.skip(m), sigil)
        } else {
            mention_ids(s.drop_first(), sigil)
        }
    }
}

/// `s` with its `k`-th mention `<{sigil}id>` replaced by `labels[k]`; a
/// mention past the end of `labels` is kept.
pub open spec fn mentions_replaced(s: Seq<char>, sigil: char, labels: Seq<Seq<char>>) -> Seq<char>
    decreases s.len(),
{
    if s.len() == 0 {
        Seq::empty()
    } else {
        let m = mention_len(s, sigil);
        if 0 < m <= s.len() {
            if labels.len() > 0 {
                labels[0] + mentions_replaced(s.skip(m), sigil, labels.drop_first())
            } else {
                s.take(m) + mentions_replaced(s.skip(m), sigil, labels)
            }
        } else {
            seq![s[0]] + mentions_replaced(s.drop_first(), sigil, labels)
        }
    }
}

/// Text without a mention is left as it is, whatever the labels.
pub proof fn lemma_no_mentions_unchanged(s: Seq<char>, sigil: char, labels: Seq<Seq<char>>)
    requires
        mention_ids(s, sigil).len() == 0,
    ensures
        mentions_replaced(s, sigil, labels) == s,
    decreases s.len(),
{
    if s.len() > 0 {
        let m = mention_len(s, sigil);
        if 0 < m <= s.len() {
            assert(mention_ids(s, sigil).len() > 0);
        } else {
            lemma_no_mentions_unchanged(s.drop_first(), sigil, labels);
            assert(seq![s[0]] + s.drop_first() =~= s);
        }
    }
}

proof fn lemma_regex_digit_run_len(s: Seq<char>)
    ensures
        0 <= regex_digit_run_len(s) <= s.len(),
    decreases s.len(),
{
    if s.len() > 0 {
        lemma_regex_digit_run_len(s.drop_first());
    }
}

/// `mention_len(s@.skip(i), sigil)`.
fn mention_len_at(s: &Vec<char>, i: usize, sigil: char) -> (r: usize)
    requires
        i <= s.len(),
    ensures
        r == mention_len(s@.skip(i as int), sigil),
        r <= s.len() - i,
{
    let ghost t = s@.skip(i as int);
    let n = s.len();
    if n - i < 3 || s[i] != '<' || s[i + 1] != sigil {
        return 0;
    }
    let mut j = i + 2;
    assert(t.skip(2) =~= s@.skip(i + 2));
    while j < n && is_regex_digit(s[j])
        invariant
            i + 2 <= j <= n == s.len(),
            t == s@.skip(i as int),
            regex_digit_run_len(t.skip(2)) == (j - i - 2) + regex_digit_run_len(s@.skip(j as int)),
        decreases n - j,
    {
        assert(s@.skip(j as int).drop_first() =~= s@.skip(j + 1));
        j += 1;
    }
    proof {
        assert(t.skip(2) =~= s@.skip(i + 2));
        lemma_regex_digit_run_len(s@.skip(j as int));
    }
    if j > i + 2 && j < n && s[j] == '>' {
        j - i + 1
    } else {
        0
    }
}

/// The ids of the mentions `<{sigil}id>` of `s`.
fn ids_of(s: &Vec<char>, sigil: char) -> (r: Vec<String>)
    ensures
        r.len() == mention_ids(s@, sigil).len(),
        forall|k: int| 0 <= k < r.len() ==> (#[trigger] r[k])@ == mention_ids(s@, sigil)[k],
{
    let n = s.len();
    let mut out: Vec<String> = Vec::new();
    let mut i: usize = 0;
    let ghost mut found: Seq<Seq<char>> = Seq::empty();
    assert(s@.skip(0) =~= s@);
    while i < n
        invariant
            i <= n == s.len(),
            out.len() == found.len(),
            forall|k: int| 0 <= k < out.len() ==> (#[trigger] out[k])@ == found[k],
            mention_ids(s@, sigil) == found + mention_ids(s@.skip(i as int), sigil),
        decreases n - i,
    {
        let ghost rest = s@.skip(i as int);
        let m = mention_len_at(s, i, sigil);
        if m > 0 {
            let mut id = String::new();
            let mut k = i + 2;
            while k < i + m - 1
                invariant
                    i + 2 <= k <= i + m - 1,
                    m >= 3,
                    i + m <= n == s.len(),
                    id@ == s@.subrange(i + 2, k as int),
                decreases i + m - 1 - k,
            {
                id.push(s[k]);
                k += 1;
            }
            assert(id@ =~= rest.subrange(2, m - 1));
            out.push(id);
            proof {
                found = found.push(rest.subrange(2, m - 1));
            }
            assert(rest.skip(m as int) =~= s@.skip(i + m));
            i += m;
        } else {
            assert(rest.drop_first() =~= s@.skip(i + 1));
            i += 1;
        }
    }
    assert(s@.skip(n as int).len() == 0);
    assert(found + Seq::<Seq<char>>::empty() =~= found);
    out
}

/// `s` with its `k`-th mention `<{sigil}id>` replaced by `labels[k]`.
fn replace_mentions(s: &Vec<char>, sigil: char, labels: &Vec<String>) -> (r: String)
    ensures
        r@ == mentions_replaced(s@, sigil, labels@.map_values(|l: String| l@)),
{
    let ghost all = labels@.map_values(|l: String| l@);
    let n = s.len();
    let mut out = String::new();
    let mut i: usize = 0;
    let mut used: usize = 0;
    assert(s@.skip(0) =~= s@);
    assert(all.skip(0) =~= all);
    while i < n
        invariant
            i <= n == s.len(),
            used <= labels.len(),
            all == labels@.map_values(|l: String| l@),
            mentions_replaced(s@, sigil, all) == out@ + mentions_replaced(
                s@.skip(i as int),
                sigil,
                all.skip(used as int),
            ),
        decreases n - i,
    {
        let ghost rest = s@.skip(i as int);
        let m = mention_len_at(s, i, sigil);
        if m > 0 {
            if used < labels.len() {
                out.append(labels[used].as_str());
                assert(all.skip(used as int)[0] == labels@[used as int]@);
                assert(all.skip(used as int).drop_first() =~= all.skip(used + 1));
                used += 1;
            } else {
                let ghost before = out@;
                let mut k = i;
                while k < i + m
                    invariant
                        i <= k <= i + m <= n == s.len(),
                        out@ == before + s@.subrange(i as int, k as int),
                    decreases i + m - k,
                {
                    out.push(s[k]);
                    k += 1;
                }
                assert(s@.subrange(i as int, (i + m) as int) =~= rest.take(m as int));
                assert(all.skip(used as int).len() == 0);
            }
            assert(rest.skip(m as int) =~= s@.skip(i + m));
            i += m;
        } else {
            out.push(s[i]);
            assert(rest.drop_first() =~= s@.skip(i + 1));
            i += 1;
        }
    }
    assert(s@.skip(n as int).len() == 0);
    out
}

/// The ids of the user mentions `<@id>` of `text`, in order.
pub fn user_mention_ids(text: &str) -> (r: Vec<String>)
    ensures
        r.len() == mention_ids(text@, '@').len(),
        forall|k: int| 0 <= k < r.len() ==> (#[trigger] r[k])@ == mention_ids(text@, '@')[k],
{
    ids_of(&chars_of(text), '@')
}

/// The ids of the channel mentions `<#id>` of `text`, in order.
pub fn channel_mention_ids(text: &str) -> (r: Vec<String>)
    ensures
        r.len() == mention_ids(text@, '#').len(),
        forall|k: int| 0 <= k < r.len() ==> (#[trigger] r[k])@ == mention_ids(text@, '#')[k],
{
    ids_of(&chars_of(text), '#')
}

/// The label of a user mention, from what the host knows of the user.
pub fn user_mention_label(user: &Option<User>) -> (r: String)
    ensures
        r@ == user_label(*user),
{
    let mut name = match user {
        Some(u) => match &u.guild_nickname {
            Some(n) => n.clone(),
            None => match &u.global_nickname {
                Some(n) => n.clone(),
                None => u.username.clone(),
            },
        },
        None => String::from_str("모름"),
    };
    name.append(" 호출");
    name
}

/// The label of a channel mention, from the channel's name where it is known.
pub fn channel_mention_label(name: &Option<String>) -> (r: String)
    ensures
        r@ == channel_label(*name),
{
    match name {
        Some(n) => n.clone(),
        None => String::from_str("채널"),
    }
}

/// `text` with its `k`-th user mention replaced by the label of `users[k]`,
/// the user that the host reported for that mention's id.
pub fn replace_user_mentions(text: &str, users: &Vec<Option<User>>) -> (r: String)
    ensures
        r@ == mentions_replaced(text@, '@', users@.map_values(|u: Option<User>| user_label(u))),
{
    let mut labels: Vec<String> = Vec::new();
    let mut k: usize = 0;
    while k < users.len()
        invariant
            k <= users.len(),
            labels.len() == k,
            forall|j: int| 0 <= j < k ==> (#[trigger] labels[j])@ == user_label(users@[j]),
        decreases users.len() - k,
    {
        labels.push(user_mention_label(&users[k]));
        k += 1;
    }
    assert(labels@.map_values(|l: String| l@) =~= users@.map_values(
        |u: Option<User>| user_label(u),
    ));
    replace_mentions(&chars_of(text), '@', &labels)
}

/// `text` with its `k`-th channel mention replaced by the label of
/// `channels[k]`, the name that the host reported for that mention's id.
pub fn replace_channel_mentions(text: &str, channels: &Vec<Option<String>>) -> (r: String)
    ensures
        r@ == mentions_replaced(
            text@,
            '#',
            channels@.map_values(|c: Option<String>| channel_label(c)),
        ),
{
    let mut labels: Vec<String> = Vec::new();
    let mut k: usize = 0;
    while k < channels.len()
        invariant
            k <= channels.len(),
            labels.len() == k,
            forall|j: int| 0 <= j < k ==> (#[trigger] labels[j])@ == channel_label(channels@[j]),
        decreases channels.len() - k,
    {
        labels.push(channel_mention_label(&channels[k]));
        k += 1;
    }
    assert(labels@.map_values(|l: String| l@) =~= channels@.map_values(
        |c: Option<String>| channel_label(c),
    ));
    replace_mentions(&chars_of(text), '#', &labels)
}

} // verus!
