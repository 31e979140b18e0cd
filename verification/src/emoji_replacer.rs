//! Applies the user's own replacement rules, each a regular expression, in order.
use vstd::prelude::*;
use crate::mapper::{Input, Output, TextRule};

verus! {

/// Whether `pattern` compiles as a regular expression of the `regex` crate
/// (case-insensitive when `case_insensitive` holds).
pub uninterp spec fn regex_compiles(pattern: Seq<char>, case_insensitive: bool) -> bool;

/// `text` with every match of the regular expression `pattern` replaced by
/// `replacement`, whose `$name` groups are expanded, as the `regex` crate's
/// `replace_all` computes it.
pub uninterp spec fn regex_replaced(
    pattern: Seq<char>,
    case_insensitive: bool,
    text: Seq<char>,
    replacement: Seq<char>,
) -> Seq<char>;

/// `RegexBuilder::new(pattern).case_insensitive(..).build()`, then, when that
/// succeeds, `Regex::replace_all(text, replacement)`. Claimed: the result is
/// `None` exactly when the pattern does not compile, and otherwise the
/// replaced text, both functions of the arguments alone; the regular
/// expression semantics are not restated here.
#[verifier::external_body]
fn regex_replace_all(
    pattern: &str,
    case_insensitive: bool,
    text: &str,
    replacement: &str,
) -> (r: Option<String>)
    ensures
        r is Some <==> regex_compiles(pattern@, case_insensitive),
        r matches Some(s) ==> s@ == regex_replaced(pattern@, case_insensitive, text@, replacement@),
{
    match regex::RegexBuilder::new(pattern).case_insensitive(case_insensitive).build() {
        Ok(re) => Some(re.replace_all(text, replacement).into_owned()),
        Err(_) => None,
    }
}

/// `text` after the rule `rule`: unchanged when its pattern does not compile.
pub open spec fn rule_applied(text: Seq<char>, rule: TextRule) -> Seq<char> {
    let ci = !rule.case_sensitive;
    if regex_compiles(rule.pattern@, ci) {
        regex_replaced(rule.pattern@, ci, text, rule.replacement@)
    } else {
        text
    }
}

/// `text` after each of `rules`, in order.
pub open spec fn rules_applied(text: Seq<char>, rules: Seq<TextRule>) -> Seq<char>
    decreases rules.len(),
{
    if rules.len() == 0 {
        text
    } else {
        rules_applied(rule_applied(text, rules[0]), rules.drop_first())
    }
}

proof fn lemma_rules_applied_step(text: Seq<char>, rules: Seq<TextRule>, i: int)
    requires
        0 <= i < rules.len(),
    ensures
        rules_applied(text, rules.take(i + 1)) == rule_applied(
            rules_applied(text, rules.take(i)),
            rules[i],
        ),
    decreases i,
{
    if i > 0 {
        lemma_rules_applied_step(rule_applied(text, rules[0]), rules.drop_first(), i - 1);
        assert(rules.take(i + 1).drop_first() =~= rules.drop_first().take(i));
        assert(rules.take(i).drop_first() =~= rules.drop_first().take(i - 1));
        assert(rules.take(i + 1)[0] == rules[0]);
        assert(rules.take(i)[0] == rules[0]);
        assert(rules.drop_first()[i - 1] == rules[i]);
        assert(rules_applied(text, rules.take(i + 1)) == rules_applied(
            rule_applied(text, rules[0]),
            rules.drop_first().take(i),
        ));
        assert(rules_applied(text, rules.take(i)) == rules_applied(
            rule_applied(text, rules[0]),
            rules.drop_first().take(i - 1),
        ));
    } else {
        assert(rules.take(1).drop_first() =~= Seq::<TextRule>::empty());
        assert(rules.take(0) =~= Seq::<TextRule>::empty());
        assert(rules.take(1)[0] == rules[0]);
        let next = rule_applied(text, rules[0]);
        assert(rules_applied(next, Seq::<TextRule>::empty()) == next);
        assert(rules_applied(text, rules.take(1)) == rules_applied(next, rules.take(1).drop_first()));
    }
}

/// Applying two lists of rules one after the other is applying the joined list.
pub proof fn lemma_rules_applied_append(text: Seq<char>, first: Seq<TextRule>, second: Seq<TextRule>)
    ensures
        rules_applied(text, first + second) == rules_applied(rules_applied(text, first), second),
    decreases first.len(),
{
    if first.len() == 0 {
        assert(first + second =~= second);
    } else {
        lemma_rules_applied_append(rule_applied(text, first[0]), first.drop_first(), second);
        assert((first + second).drop_first() =~= first.drop_first() + second);
        assert((first + second)[0] == first[0]);
    }
}

/// Applies `rules` to `text` in order; a rule whose pattern does not compile is skipped.
pub fn apply_rules(text: String, rules: &Vec<TextRule>) -> (r: String)
    ensures
        r@ == rules_applied(text@, rules@),
{
    let ghost original = text@;
    let mut current = text;
    let mut i: usize = 0;
    assert(rules@.take(0) =~= Seq::<TextRule>::empty());
    while i < rules.len()
        invariant
            i <= rules.len(),
            current@ == rules_applied(original, rules@.take(i as int)),
        decreases rules.len() - i,
    {
        let rule = &rules[i];
        proof {
            lemma_rules_applied_step(original, rules@, i as int);
        }
        match regex_replace_all(
            rule.pattern.as_str(),
            !rule.case_sensitive,
            current.as_str(),
            rule.replacement.as_str(),
        ) {
            Some(next) => {
                current = next;
            },
            None => {},
        }
        i += 1;
    }
    assert(rules@.take(rules.len() as int) =~= rules@);
    current
}

/// Rewrites the message with the user's replacement rules, when any are configured.
pub fn process(input: Input) -> (r: Output)
    ensures
        r.text@ == match input.mapping_list {
            Some(list) => rules_applied(input.text@, list.text_rules@),
            None => input.text@,
        },
        r.override_future_mappers is None,
{
    match input.mapping_list {
        Some(list) => Output::text(apply_rules(input.text, &list.text_rules)),
        None => Output::text(input.text),
    }
}

} // verus!
