//! What holds of every configuration and of every search.

use vstd::prelude::*;
use crate::document::{
    get, lemma_get_after_put, lemma_get_after_remove, lemma_get_other_after_put,
    lemma_get_other_after_remove, lemma_put_keeps_keys_distinct, put, remove_key, Entries,
    JsonView,
};
use crate::sequence::{first_index_of, lemma_first_index_of, lemma_first_index_of_is};
use crate::annotated::{child, raw_value_at, resolve, Annotated, RawValue, StrippedEvent};
use crate::suggestions::{
    all_edits, categories, config_of, edit_of_key, edits_of_kind, edits_of_kinds, edits_of_rule,
    edits_of_rules, effective_among, effective_edits, is_search_outcome, makes_difference,
    suggestions_view, PiiRuleSuggestion, SuggestError, Suggestion,
};
use crate::text::{
    first_segment, is_plain_path, is_root_path, is_segment, joined_path, last_segment,
    lemma_segment_len_bound, lemma_segment_len_is, lemma_segment_len_of_joined, segment_len,
};
use crate::types::{
    applications_key, applications_of, custom_rules, defined_rules, defines_key_redaction,
    free_padding, is_answer_of, is_applied, is_taken, is_well_formed, key_redaction_rule,
    key_rule_name, known_rules, lemma_added_rule_is_applied, lemma_key_rule_keeps_well_formed,
    lemma_rule_edits_keep_well_formed, lemma_sections_differ, lemma_taken_is_short, longest_key,
    padded_rule_name, rule_item, rules_key, rules_of, rules_of_kind, with_key_rule_defined,
    with_rule_added, with_rule_removed, without_repeats, ConfigError, PiiConfig,
};

verus! {

/// The rules applied to `kind`; a kind that is not entered has none.
pub open spec fn applied_rules(config: Entries, kind: Seq<char>) -> Seq<
    JsonView,
> {
    match applications_of(config) {
        Ok(applications) => match rules_of_kind(applications, kind) {
            Ok(rules) => rules,
            Err(_) => Seq::empty(),
        },
        Err(_) => Seq::empty(),
    }
}

/// Applying a rule a second time changes nothing: once a rule was applied to
/// a kind, it is among the rules of that kind, and applying it again leaves
/// the configuration as it is and says so.
pub proof fn law_add_rule_is_idempotent(
    config: Entries,
    kind: Seq<char>,
    rule: Seq<char>,
)
    requires
        with_rule_added(config, kind, rule) is Ok,
    ensures
        ({
            let once = with_rule_added(config, kind, rule)->Ok_0.0;
            &&& is_applied(once, kind, rule)
            &&& with_rule_added(once, kind, rule) == Ok::<
                (Entries, bool),
                ConfigError,
            >((once, false))
        }),
{
    lemma_added_rule_is_applied(config, kind, rule);
}

/// Taking away a rule that is not applied changes nothing: the configuration
/// stays as it is, and the outcome says so.
pub proof fn law_remove_absent_rule_changes_nothing(
    config: Entries,
    kind: Seq<char>,
    rule: Seq<char>,
)
    requires
        with_rule_removed(config, kind, rule) is Ok,
        !is_applied(config, kind, rule),
    ensures
        with_rule_removed(config, kind, rule) == Ok::<
            (Entries, bool),
            ConfigError,
        >((config, false)),
{
    let applications = applications_of(config)->Ok_0;
    let rules = rules_of_kind(applications, kind)->Ok_0;
    lemma_first_index_of(rules, rule_item(rule));
}

/// Taking a rule away undoes applying it. Where applying `rule` to `kind`
/// changed a well-formed configuration, taking it away again succeeds and
/// changes it back: every kind has the rules it had, a kind without rules
/// counting like one that is not entered, and every other section is as it
/// was.
pub proof fn law_remove_rule_undoes_add_rule(
    config: Entries,
    kind: Seq<char>,
    rule: Seq<char>,
)
    requires
        is_well_formed(config),
        with_rule_added(config, kind, rule) matches Ok((_, changed)) && changed,
    ensures
        ({
            let added = with_rule_added(config, kind, rule)->Ok_0.0;
            &&& with_rule_removed(added, kind, rule) matches Ok((restored, changed)) && changed && {
                &&& forall|any: Seq<char>| #[trigger]
                    applied_rules(restored, any) == applied_rules(config, any)
                &&& forall|section: Seq<char>|
                    section != applications_key() ==> #[trigger] get(restored, section) == get(
                        config,
                        section,
                    )
            }
        }),
{
    let applications = applications_of(config)->Ok_0;
    let rules = rules_of_kind(applications, kind)->Ok_0;
    let item = rule_item(rule);
    let listed = rules.push(item);
    let grown = put(applications, kind, JsonView::Array(listed));
    let added = put(config, applications_key(), JsonView::Object(grown));
    lemma_get_after_put(applications, kind, JsonView::Array(listed));
    lemma_get_after_put(config, applications_key(), JsonView::Object(grown));
    // The rule stands last among the rules of the kind, and nowhere before.
    assert forall|j: int| 0 <= j < rules.len() implies #[trigger] listed[j] != item by {
        assert(listed[j] == rules[j]);
        assert(rules.contains(rules[j]));
    }
    lemma_first_index_of_is(listed, item, rules.len() as int);
    assert(listed.remove(rules.len() as int) =~= rules);
    let shrunk = if rules.len() == 0 {
        remove_key(grown, kind)
    } else {
        put(grown, kind, JsonView::Array(rules))
    };
    let restored = put(added, applications_key(), JsonView::Object(shrunk));
    assert(with_rule_removed(added, kind, rule) == Ok::<
        (Entries, bool),
        ConfigError,
    >((restored, true)));
    lemma_get_after_put(added, applications_key(), JsonView::Object(shrunk));
    assert forall|any: Seq<char>| #[trigger]
        applied_rules(restored, any) == applied_rules(config, any) by {
        if any == kind {
            if rules.len() == 0 {
                lemma_put_keeps_keys_distinct(applications, kind, JsonView::Array(listed));
                lemma_get_after_remove(grown, kind);
            } else {
                lemma_get_after_put(grown, kind, JsonView::Array(rules));
            }
        } else {
            lemma_get_other_after_put(applications, kind, JsonView::Array(listed), any);
            if rules.len() == 0 {
                lemma_get_other_after_remove(grown, kind, any);
            } else {
                lemma_get_other_after_put(grown, kind, JsonView::Array(rules), any);
            }
        }
    }
    assert forall|section: Seq<char>| section != applications_key() implies #[trigger] get(
        restored,
        section,
    ) == get(config, section) by {
        lemma_get_other_after_put(config, applications_key(), JsonView::Object(grown), section);
        lemma_get_other_after_put(added, applications_key(), JsonView::Object(shrunk), section);
    }
}

/// Edits keep a configuration well formed: where no name is entered twice,
/// none is after a rule was applied to a kind, after one was taken away from
/// it, or after the rule for a key was defined.
pub proof fn law_edits_keep_the_configuration_well_formed(
    config: Entries,
    kind: Seq<char>,
    rule: Seq<char>,
)
    requires
        is_well_formed(config),
    ensures
        with_rule_added(config, kind, rule) matches Ok((added, _)) ==> is_well_formed(added),
        with_rule_removed(config, kind, rule) matches Ok((removed, _)) ==> is_well_formed(removed),
        with_key_rule_defined(config, kind, rule) matches Ok(defined) ==> is_well_formed(defined),
{
    lemma_rule_edits_keep_well_formed(config, kind, rule);
    lemma_key_rule_keeps_well_formed(config, kind, rule);
}

/// Edits leave the rest of the configuration alone: applying a rule to a
/// kind, or taking one away from it, changes nothing but `applications`, and
/// in it nothing but what is entered under the kind.
pub proof fn law_edits_keep_everything_else(config: Entries, kind: Seq<char>, rule: Seq<char>)
    ensures
        with_rule_added(config, kind, rule) matches Ok((added, _)) ==> {
            &&& forall|section: Seq<char>|
                section != applications_key() ==> #[trigger] get(added, section) == get(
                    config,
                    section,
                )
            &&& forall|other: Seq<char>|
                other != kind ==> #[trigger] applied_rules(added, other) == applied_rules(
                    config,
                    other,
                )
        },
        with_rule_removed(config, kind, rule) matches Ok((removed, _)) ==> {
            &&& forall|section: Seq<char>|
                section != applications_key() ==> #[trigger] get(removed, section) == get(
                    config,
                    section,
                )
            &&& forall|other: Seq<char>|
                other != kind ==> #[trigger] applied_rules(removed, other) == applied_rules(
                    config,
                    other,
                )
        },
{
    if applications_of(config) is Ok {
        let applications = applications_of(config)->Ok_0;
        if rules_of_kind(applications, kind) is Ok {
            let rules = rules_of_kind(applications, kind)->Ok_0;
            let item = rule_item(rule);
            if !rules.contains(item) {
                let listed = JsonView::Array(rules.push(item));
                let grown = put(applications, kind, listed);
                let added = put(config, applications_key(), JsonView::Object(grown));
                lemma_get_after_put(config, applications_key(), JsonView::Object(grown));
                assert forall|section: Seq<char>|
                    section != applications_key() implies #[trigger] get(added, section) == get(
                    config,
                    section,
                ) by {
                    lemma_get_other_after_put(
                        config,
                        applications_key(),
                        JsonView::Object(grown),
                        section,
                    );
                }
                assert forall|other: Seq<char>| other != kind implies #[trigger] applied_rules(
                    added,
                    other,
                ) == applied_rules(config, other) by {
                    lemma_get_other_after_put(applications, kind, listed, other);
                }
            }
            lemma_first_index_of(rules, item);
            if rules.contains(item) {
                let at = first_index_of(rules, item)->Some_0;
                let rest = rules.remove(at);
                let shrunk = if rest.len() == 0 {
                    remove_key(applications, kind)
                } else {
                    put(applications, kind, JsonView::Array(rest))
                };
                let removed = put(config, applications_key(), JsonView::Object(shrunk));
                lemma_get_after_put(config, applications_key(), JsonView::Object(shrunk));
                assert forall|section: Seq<char>|
                    section != applications_key() implies #[trigger] get(removed, section) == get(
                    config,
                    section,
                ) by {
                    lemma_get_other_after_put(
                        config,
                        applications_key(),
                        JsonView::Object(shrunk),
                        section,
                    );
                }
                assert forall|other: Seq<char>| other != kind implies #[trigger] applied_rules(
                    removed,
                    other,
                ) == applied_rules(config, other) by {
                    lemma_get_other_after_remove(applications, kind, other);
                    lemma_get_other_after_put(applications, kind, JsonView::Array(rest), other);
                }
            }
        }
    }
}

/// Every name among `names` is among them without repeats, and no other;
/// none is there twice.
pub proof fn lemma_without_repeats(names: Seq<Seq<char>>)
    ensures
        without_repeats(names).no_duplicates(),
        without_repeats(names).len() <= names.len(),
        forall|name: Seq<char>| #[trigger]
            without_repeats(names).contains(name) <==> names.contains(name),
    decreases names.len(),
{
    if names.len() > 0 {
        let first = names.drop_last();
        let kept = without_repeats(first);
        let now = without_repeats(names);
        lemma_without_repeats(first);
        assert forall|name: Seq<char>| #[trigger] now.contains(name) <==> names.contains(name) by {
            if now.contains(name) {
                let i = choose|i: int| 0 <= i < now.len() && now[i] == name;
                if i < kept.len() {
                    assert(kept[i] == name);
                    assert(without_repeats(first).contains(name));
                    assert(first.contains(name));
                    let j = choose|j: int| 0 <= j < first.len() && first[j] == name;
                    assert(names[j] == name);
                } else {
                    assert(names[names.len() - 1] == name);
                }
            }
            if names.contains(name) {
                let j = choose|j: int| 0 <= j < names.len() && names[j] == name;
                if j < first.len() {
                    assert(first[j] == name);
                    assert(first.contains(name));
                    assert(without_repeats(first).contains(name));
                    let i = choose|i: int| 0 <= i < kept.len() && kept[i] == name;
                    assert(now[i] == name);
                } else if kept.contains(name) {
                    let i = choose|i: int| 0 <= i < kept.len() && kept[i] == name;
                    assert(now[i] == name);
                } else {
                    assert(now[kept.len() as int] == name);
                }
            }
        }
        assert forall|i: int, j: int|
            0 <= i < now.len() && 0 <= j < now.len() && i != j implies now[i] != now[j] by {
            if i < kept.len() && j < kept.len() {
            } else if i < kept.len() {
                assert(kept.contains(kept[i]));
            } else {
                assert(kept.contains(kept[j]));
            }
        }
    }
}

/// Names that come first stay first: what is kept of `first` begins what is
/// kept of `first` and then `more`.
pub proof fn lemma_without_repeats_prefix(first: Seq<Seq<char>>, more: Seq<Seq<char>>)
    ensures
        without_repeats(first).is_prefix_of(without_repeats(first + more)),
    decreases more.len(),
{
    if more.len() == 0 {
        assert(first + more =~= first);
    } else {
        lemma_without_repeats_prefix(first, more.drop_last());
        assert((first + more).drop_last() =~= first + more.drop_last());
    }
}

/// Names of which none is there twice are all kept.
pub proof fn lemma_without_repeats_keeps_distinct(names: Seq<Seq<char>>)
    requires
        names.no_duplicates(),
    ensures
        without_repeats(names) == names,
    decreases names.len(),
{
    if names.len() > 0 {
        let first = names.drop_last();
        lemma_without_repeats_keeps_distinct(first);
        if first.contains(names.last()) {
            let j = choose|j: int| 0 <= j < first.len() && first[j] == names.last();
            assert(names[j] == names[names.len() - 1]);
        }
        assert(first.push(names.last()) =~= names);
    }
}

/// The known rules are a set in a fixed order: they hold every built-in rule
/// and every rule that the configuration defines, nothing else, and no name
/// twice. A catalog of built-in rules that holds no name twice stands at
/// their beginning, in its own order.
pub proof fn law_known_rules_are_the_rules_once(
    builtin: Seq<Seq<char>>,
    config: Entries,
)
    ensures
        known_rules(builtin, config).no_duplicates(),
        forall|name: Seq<char>| #[trigger]
            known_rules(builtin, config).contains(name) <==> builtin.contains(name)
                || custom_rules(config).contains(name),
        builtin.no_duplicates() ==> builtin.is_prefix_of(known_rules(builtin, config)),
{
    let custom = custom_rules(config);
    lemma_without_repeats(builtin + custom);
    assert forall|name: Seq<char>| #[trigger]
        known_rules(builtin, config).contains(name) <==> builtin.contains(name) || custom.contains(
            name,
        ) by {
        let all = builtin + custom;
        if all.contains(name) {
            let i = choose|i: int| 0 <= i < all.len() && all[i] == name;
            if i < builtin.len() {
                assert(builtin[i] == name);
            } else {
                assert(custom[i - builtin.len()] == name);
            }
        }
        if builtin.contains(name) {
            let i = choose|i: int| 0 <= i < builtin.len() && builtin[i] == name;
            assert(all[i] == name);
        }
        if custom.contains(name) {
            let i = choose|i: int| 0 <= i < custom.len() && custom[i] == name;
            assert(all[i + builtin.len()] == name);
        }
    }
    if builtin.no_duplicates() {
        lemma_without_repeats_prefix(builtin, custom);
        lemma_without_repeats_keeps_distinct(builtin);
    }
}

/// The padding found leaves a name that is not taken.
pub proof fn lemma_free_padding_is_free(rules: Entries, key: Seq<char>, count: nat)
    ensures
        free_padding(rules, key, count) >= count,
        !is_taken(rules, key, padded_rule_name(key, free_padding(rules, key, count))),
    decreases longest_key(rules) + 1 - count,
{
    if is_taken(rules, key, padded_rule_name(key, count)) {
        lemma_taken_is_short(rules, key, count);
        lemma_free_padding_is_free(rules, key, count + 1);
    }
}

/// The name made for a key never stands for another rule: what the
/// configuration defines under it, if anything, is the rule that takes away
/// the entries named by the key.
pub proof fn law_key_rule_name_is_free(config: Entries, key: Seq<char>)
    ensures
        match get(defined_rules(config), key_rule_name(config, key)) {
            Some(definition) => defines_key_redaction(definition, key),
            None => true,
        },
{
    lemma_free_padding_is_free(defined_rules(config), key, 0);
}

/// Defining the rule for a key loses nothing: under the name made for the
/// key stands the rule that takes away the entries named by it, every other
/// rule is defined as it was, and so is every other section.
pub proof fn law_key_rule_definition_loses_nothing(
    config: Entries,
    key: Seq<char>,
)
    requires
        rules_of(config) is Ok,
    ensures
        with_key_rule_defined(config, key_rule_name(config, key), key) matches Ok(defined) && {
            &&& get(defined_rules(defined), key_rule_name(config, key)) == Some(
                key_redaction_rule(key),
            )
            &&& forall|name: Seq<char>|
                name != key_rule_name(config, key) ==> #[trigger] get(defined_rules(defined), name)
                    == get(defined_rules(config), name)
            &&& forall|section: Seq<char>|
                section != rules_key() ==> #[trigger] get(defined, section) == get(config, section)
        },
{
    let name = key_rule_name(config, key);
    let rules = rules_of(config)->Ok_0;
    let edited = put(rules, name, key_redaction_rule(key));
    let defined = put(config, rules_key(), JsonView::Object(edited));
    lemma_get_after_put(config, rules_key(), JsonView::Object(edited));
    lemma_get_after_put(rules, name, key_redaction_rule(key));
    assert(defined_rules(defined) == edited);
    assert forall|other: Seq<char>| other != name implies #[trigger] get(
        defined_rules(defined),
        other,
    ) == get(defined_rules(config), other) by {
        lemma_get_other_after_put(rules, name, key_redaction_rule(key), other);
        if get(config, rules_key()) is None {
            assert(get(Seq::<(Seq<char>, JsonView)>::empty(), other) is None);
        }
    }
    assert forall|section: Seq<char>| section != rules_key() implies #[trigger] get(
        defined,
        section,
    ) == get(config, section) by {
        lemma_get_other_after_put(config, rules_key(), JsonView::Object(edited), section);
    }
}

/// The edit made for a key defines its rule and applies it: the suggestion
/// names the kind and the key, and the configuration it holds defines, under
/// the name made for the key, the rule that takes away the entries named by
/// it, and applies that name to the kind.
pub proof fn law_key_edit_defines_and_applies_its_rule(
    config: Entries,
    kind: Seq<char>,
    key: Seq<char>,
)
    requires
        edit_of_key(config, kind, key).len() > 0,
    ensures
        edit_of_key(config, kind, key).len() == 1,
        edit_of_key(config, kind, key)[0] matches Suggestion::RemoveKeyNamed {
            pii_kind,
            key_name,
            config: edited,
        } && {
            &&& pii_kind == kind
            &&& key_name == key
            &&& get(defined_rules(edited), key_rule_name(config, key)) == Some(
                key_redaction_rule(key),
            )
            &&& is_applied(edited, kind, key_rule_name(config, key))
        },
{
    let name = key_rule_name(config, key);
    law_key_rule_definition_loses_nothing(config, key);
    let defined = with_key_rule_defined(config, name, key)->Ok_0;
    law_add_rule_is_idempotent(defined, kind, name);
    let applications = applications_of(defined)->Ok_0;
    let rules = rules_of_kind(applications, kind)->Ok_0;
    let grown = put(applications, kind, JsonView::Array(rules.push(rule_item(name))));
    lemma_sections_differ();
    lemma_get_other_after_put(defined, applications_key(), JsonView::Object(grown), rules_key());
}

/// The position, among the edits, of the one that stands at `k` among those
/// picked out of the first `n`.
pub open spec fn origin_among(
    baseline: Option<RawValue>,
    edits: Seq<Suggestion>,
    answers: Seq<Result<StrippedEvent, String>>,
    path: Seq<char>,
    n: nat,
    k: int,
) -> int
    decreases n,
{
    if n == 0 {
        0
    } else if n <= edits.len() && n <= answers.len() && makes_difference(
        baseline,
        answers[n - 1],
        path,
    ) && k == effective_among(baseline, edits, answers, path, (n - 1) as nat).len() {
        n - 1
    } else {
        origin_among(baseline, edits, answers, path, (n - 1) as nat, k)
    }
}

/// The position, among the edits, of the suggestion that stands at `k`.
pub open spec fn origin(
    baseline: Option<RawValue>,
    edits: Seq<Suggestion>,
    answers: Seq<Result<StrippedEvent, String>>,
    path: Seq<char>,
    k: int,
) -> int {
    origin_among(baseline, edits, answers, path, edits.len(), k)
}

/// Each edit picked out of the first `n` is one of them, was answered, and
/// its answer makes a difference; and the picked edits stand in the order of
/// the edits.
pub proof fn lemma_origin_among(
    baseline: Option<RawValue>,
    edits: Seq<Suggestion>,
    answers: Seq<Result<StrippedEvent, String>>,
    path: Seq<char>,
    n: nat,
)
    ensures
        effective_among(baseline, edits, answers, path, n).len() <= n,
        forall|k: int|
            0 <= k < effective_among(baseline, edits, answers, path, n).len() ==> {
                let i = #[trigger] origin_among(baseline, edits, answers, path, n, k);
                &&& 0 <= i < n
                &&& i < edits.len()
                &&& i < answers.len()
                &&& effective_among(baseline, edits, answers, path, n)[k] == edits[i]
                &&& makes_difference(baseline, answers[i], path)
            },
        forall|k: int, l: int|
            0 <= k < l < effective_among(baseline, edits, answers, path, n).len()
                ==> #[trigger] origin_among(baseline, edits, answers, path, n, k)
                < #[trigger] origin_among(baseline, edits, answers, path, n, l),
    decreases n,
{
    if n > 0 {
        let m = (n - 1) as nat;
        lemma_origin_among(baseline, edits, answers, path, m);
        let before = effective_among(baseline, edits, answers, path, m);
        let now = effective_among(baseline, edits, answers, path, n);
        assert forall|k: int| 0 <= k < now.len() implies {
            let i = #[trigger] origin_among(baseline, edits, answers, path, n, k);
            &&& 0 <= i < n
            &&& i < edits.len()
            &&& i < answers.len()
            &&& now[k] == edits[i]
            &&& makes_difference(baseline, answers[i], path)
        } by {
            if k < before.len() {
                let i = origin_among(baseline, edits, answers, path, m, k);
                assert(0 <= i < m);
                assert(now[k] == before[k]);
            }
        }
        assert forall|k: int, l: int| 0 <= k < l < now.len() implies #[trigger] origin_among(
            baseline,
            edits,
            answers,
            path,
            n,
            k,
        ) < #[trigger] origin_among(baseline, edits, answers, path, n, l) by {
            let i = origin_among(baseline, edits, answers, path, m, k);
            assert(0 <= i < m);
            if l < before.len() {
                let j = origin_among(baseline, edits, answers, path, m, l);
                assert(i < j);
            }
        }
    }
}

/// Every suggestion is an edit that was tried, and the engine's answer to it
/// shows another raw value at the path than the baseline. The suggestions
/// stand in the order in which the edits were tried.
pub proof fn law_suggestions_make_a_difference(
    baseline: Option<RawValue>,
    edits: Seq<Suggestion>,
    answers: Seq<Result<StrippedEvent, String>>,
    path: Seq<char>,
)
    ensures
        effective_edits(baseline, edits, answers, path).len() <= edits.len(),
        forall|k: int|
            0 <= k < effective_edits(baseline, edits, answers, path).len() ==> {
                let i = #[trigger] origin(baseline, edits, answers, path, k);
                &&& 0 <= i < edits.len()
                &&& i < answers.len()
                &&& effective_edits(baseline, edits, answers, path)[k] == edits[i]
                &&& answers[i] matches Ok(result) && raw_value_at(result, path) != baseline
            },
        forall|k: int, l: int|
            0 <= k < l < effective_edits(baseline, edits, answers, path).len()
                ==> #[trigger] origin(baseline, edits, answers, path, k) < #[trigger] origin(
                baseline,
                edits,
                answers,
                path,
                l,
            ),
{
    lemma_origin_among(baseline, edits, answers, path, edits.len());
}

/// An edit that the engine rejects is not suggested: where every answer is
/// an error, nothing is picked.
pub proof fn law_rejected_edits_are_not_suggested(
    baseline: Option<RawValue>,
    edits: Seq<Suggestion>,
    answers: Seq<Result<StrippedEvent, String>>,
    path: Seq<char>,
)
    requires
        forall|i: int| 0 <= i < answers.len() ==> (#[trigger] answers[i]) is Err,
    ensures
        effective_edits(baseline, edits, answers, path) == Seq::<Suggestion>::empty(),
{
    law_suggestions_make_a_difference(baseline, edits, answers, path);
    let picked = effective_edits(baseline, edits, answers, path);
    if picked.len() > 0 {
        let i = origin(baseline, edits, answers, path, 0);
        assert(answers[i] is Err);
    }
    assert(picked =~= Seq::<Suggestion>::empty());
}

/// Only the baseline ends a search: the search ends in an error where, and
/// only where, the engine failed on the configuration as it stood, and the
/// error holds the engine's words. No shape of the configuration and no
/// answer to an edit makes it fail; where the engine rejects every edit the
/// search succeeds and suggests nothing.
pub proof fn law_search_fails_only_with_the_baseline<
    F: Fn(&PiiConfig) -> Result<StrippedEvent, String>,
>(
    engine: F,
    old_config: PiiConfig,
    path: Seq<char>,
    builtin: Seq<Seq<char>>,
    baseline: Result<StrippedEvent, String>,
    tried: Seq<PiiConfig>,
    answered: Seq<Result<StrippedEvent, String>>,
    outcome: Result<Vec<PiiRuleSuggestion>, SuggestError>,
)
    requires
        is_search_outcome(engine, old_config, path, builtin, baseline, tried, answered, outcome),
    ensures
        outcome is Err <==> baseline is Err,
        baseline matches Err(words) ==> (outcome matches Err(SuggestError::Engine(given))
            && given == words),
        (baseline is Ok && forall|i: int|
            0 <= i < answered.len() ==> (#[trigger] answered[i]) is Err) ==> (outcome matches Ok(
            found,
        ) && found@.len() == 0),
{
    if baseline is Ok {
        let shown = raw_value_at(baseline->Ok_0, path);
        let edits = all_edits(builtin, old_config@, path);
        if forall|i: int| 0 <= i < answered.len() ==> (#[trigger] answered[i]) is Err {
            law_rejected_edits_are_not_suggested(shown, edits, answered, path);
            assert(suggestions_view(outcome->Ok_0@).len() == 0);
        }
    }
}

/// A search is sound: every suggestion it returns holds a configuration that
/// the engine was asked with, and the engine's answer to it showed another
/// raw value at the path than its answer to the configuration as it stood.
pub proof fn law_search_is_sound<F: Fn(&PiiConfig) -> Result<StrippedEvent, String>>(
    engine: F,
    old_config: PiiConfig,
    path: Seq<char>,
    builtin: Seq<Seq<char>>,
    baseline: Result<StrippedEvent, String>,
    tried: Seq<PiiConfig>,
    answered: Seq<Result<StrippedEvent, String>>,
    outcome: Result<Vec<PiiRuleSuggestion>, SuggestError>,
    k: int,
)
    requires
        is_search_outcome(engine, old_config, path, builtin, baseline, tried, answered, outcome),
        outcome matches Ok(found) && 0 <= k < found.len(),
    ensures
        baseline is Ok,
        exists|i: int|
            {
                &&& 0 <= i < tried.len()
                &&& i < answered.len()
                &&& (#[trigger] tried[i])@ == config_of(outcome->Ok_0@[k]@)
                &&& is_answer_of(engine, tried[i], answered[i])
                &&& answered[i] matches Ok(new_result) && raw_value_at(new_result, path)
                    != raw_value_at(baseline->Ok_0, path)
            },
{
    let shown = raw_value_at(baseline->Ok_0, path);
    let edits = all_edits(builtin, old_config@, path);
    law_suggestions_make_a_difference(shown, edits, answered, path);
    let i = origin(shown, edits, answered, path, k);
    assert(suggestions_view(outcome->Ok_0@)[k] == outcome->Ok_0@[k]@);
    assert(tried[i]@ == config_of(edits[i]));
}

/// Whether a suggestion stays within bounds: it is about one of `kinds`, and
/// it applies or takes away one of `rules`, or is made for the key `key`.
pub open spec fn is_within(
    suggestion: Suggestion,
    kinds: Seq<Seq<char>>,
    rules: Seq<Seq<char>>,
    key: Seq<char>,
) -> bool {
    match suggestion {
        Suggestion::ActivateRule { pii_kind, rule, .. } => kinds.contains(pii_kind)
            && rules.contains(rule),
        Suggestion::DeactivateRule { pii_kind, rule, .. } => kinds.contains(pii_kind)
            && rules.contains(rule),
        Suggestion::RemoveKeyNamed { pii_kind, key_name, .. } => kinds.contains(pii_kind)
            && key_name == key,
    }
}

/// The edits of the rules of one kind are about that kind and those rules.
pub proof fn lemma_edits_of_rules_within(
    config: Entries,
    kind: Seq<char>,
    rules: Seq<Seq<char>>,
    key: Seq<char>,
)
    ensures
        forall|k: int|
            0 <= k < edits_of_rules(config, kind, rules).len() ==> is_within(
                #[trigger] edits_of_rules(config, kind, rules)[k],
                seq![kind],
                rules,
                key,
            ),
    decreases rules.len(),
{
    if rules.len() > 0 {
        let first = rules.drop_last();
        lemma_edits_of_rules_within(config, kind, first, key);
        let head = edits_of_rules(config, kind, first);
        let tail = edits_of_rule(config, kind, rules.last());
        assert(seq![kind][0] == kind);
        assert(rules[rules.len() - 1] == rules.last());
        assert forall|k: int| 0 <= k < (head + tail).len() implies is_within(
            #[trigger] (head + tail)[k],
            seq![kind],
            rules,
            key,
        ) by {
            if k < head.len() {
                let s = head[k];
                assert(is_within(s, seq![kind], first, key));
                assert forall|name: Seq<char>| first.contains(name) implies rules.contains(
                    name,
                ) by {
                    let j = choose|j: int| 0 <= j < first.len() && first[j] == name;
                    assert(rules[j] == name);
                }
            }
        }
    }
}

/// The edits of some kinds are about those kinds, the given rules and the
/// given key.
pub proof fn lemma_edits_of_kinds_within(
    config: Entries,
    kinds: Seq<Seq<char>>,
    rules: Seq<Seq<char>>,
    key: Seq<char>,
)
    ensures
        forall|k: int|
            0 <= k < edits_of_kinds(config, kinds, rules, key).len() ==> is_within(
                #[trigger] edits_of_kinds(config, kinds, rules, key)[k],
                kinds,
                rules,
                key,
            ),
    decreases kinds.len(),
{
    if kinds.len() > 0 {
        let first = kinds.drop_last();
        let kind = kinds.last();
        lemma_edits_of_kinds_within(config, first, rules, key);
        lemma_edits_of_rules_within(config, kind, rules, key);
        let head = edits_of_kinds(config, first, rules, key);
        let by_rule = edits_of_rules(config, kind, rules);
        let by_key = edit_of_key(config, kind, key);
        let tail = by_rule + by_key;
        assert(edits_of_kind(config, kind, rules, key) == tail);
        assert(kinds[kinds.len() - 1] == kind);
        assert forall|name: Seq<char>| first.contains(name) implies kinds.contains(name) by {
            let j = choose|j: int| 0 <= j < first.len() && first[j] == name;
            assert(kinds[j] == name);
        }
        assert forall|name: Seq<char>| seq![kind].contains(name) implies kinds.contains(name) by {
            let j = choose|j: int| 0 <= j < seq![kind].len() && seq![kind][j] == name;
            assert(name == kind);
        }
        assert forall|k: int| 0 <= k < (head + tail).len() implies is_within(
            #[trigger] (head + tail)[k],
            kinds,
            rules,
            key,
        ) by {
            if k < head.len() {
                assert(is_within(head[k], first, rules, key));
            } else if k - head.len() < by_rule.len() {
                assert(is_within(by_rule[k - head.len()], seq![kind], rules, key));
            } else {
                assert((head + tail)[k] == by_key[k - head.len() - by_rule.len()]);
            }
        }
    }
}

/// A search stays within what the configuration knows: every suggestion it
/// returns is about a kind of content or about the path itself; one that
/// applies or takes away a rule names a rule that the configuration knows,
/// and one made for a key names the last segment of the path.
pub proof fn law_search_stays_within_known_rules<
    F: Fn(&PiiConfig) -> Result<StrippedEvent, String>,
>(
    engine: F,
    old_config: PiiConfig,
    path: Seq<char>,
    builtin: Seq<Seq<char>>,
    baseline: Result<StrippedEvent, String>,
    tried: Seq<PiiConfig>,
    answered: Seq<Result<StrippedEvent, String>>,
    outcome: Result<Vec<PiiRuleSuggestion>, SuggestError>,
    k: int,
)
    requires
        is_search_outcome(engine, old_config, path, builtin, baseline, tried, answered, outcome),
        outcome matches Ok(found) && 0 <= k < found.len(),
    ensures
        is_within(
            outcome->Ok_0@[k]@,
            categories(path),
            known_rules(builtin, old_config@),
            last_segment(path),
        ),
{
    let shown = raw_value_at(baseline->Ok_0, path);
    let edits = all_edits(builtin, old_config@, path);
    law_suggestions_make_a_difference(shown, edits, answered, path);
    lemma_edits_of_kinds_within(
        old_config@,
        categories(path),
        known_rules(builtin, old_config@),
        last_segment(path),
    );
    let i = origin(shown, edits, answered, path, k);
    assert(suggestions_view(outcome->Ok_0@)[k] == outcome->Ok_0@[k]@);
    assert(is_within(
        edits[i],
        categories(path),
        known_rules(builtin, old_config@),
        last_segment(path),
    ));
}

/// Whether two answers of the engine show the same at `path`: the same raw
/// value, or an error both times.
pub open spec fn show_the_same(
    one: Result<StrippedEvent, String>,
    other: Result<StrippedEvent, String>,
    path: Seq<char>,
) -> bool {
    match one {
        Ok(result) => other matches Ok(again) && raw_value_at(result, path) == raw_value_at(
            again,
            path,
        ),
        Err(_) => other is Err,
    }
}

/// What is picked depends only on what the answers show at the path.
pub proof fn lemma_effective_among_same_answers(
    baseline: Option<RawValue>,
    edits: Seq<Suggestion>,
    one: Seq<Result<StrippedEvent, String>>,
    other: Seq<Result<StrippedEvent, String>>,
    path: Seq<char>,
    n: nat,
)
    requires
        one.len() == other.len(),
        forall|i: int| 0 <= i < one.len() ==> show_the_same(#[trigger] one[i], other[i], path),
    ensures
        effective_among(baseline, edits, one, path, n) == effective_among(
            baseline,
            edits,
            other,
            path,
            n,
        ),
    decreases n,
{
    if n > 0 {
        lemma_effective_among_same_answers(baseline, edits, one, other, path, (n - 1) as nat);
        if n <= one.len() {
            assert(show_the_same(one[n - 1], other[n - 1], path));
        }
    }
}

/// A search is determined by its inputs and the engine's answers. Two
/// searches for the same path in the same configuration, with the same
/// built-in rules, come to the same suggestions in the same order, provided
/// the engine showed the same at the path both times: to the configuration as
/// it stood, and to each edit in turn. Where one ends in an error, so does
/// the other.
pub proof fn law_search_is_deterministic<F: Fn(&PiiConfig) -> Result<StrippedEvent, String>>(
    engine: F,
    old_config: PiiConfig,
    path: Seq<char>,
    builtin: Seq<Seq<char>>,
    baseline: Result<StrippedEvent, String>,
    tried: Seq<PiiConfig>,
    answered: Seq<Result<StrippedEvent, String>>,
    outcome: Result<Vec<PiiRuleSuggestion>, SuggestError>,
    baseline_again: Result<StrippedEvent, String>,
    tried_again: Seq<PiiConfig>,
    answered_again: Seq<Result<StrippedEvent, String>>,
    outcome_again: Result<Vec<PiiRuleSuggestion>, SuggestError>,
)
    requires
        is_search_outcome(engine, old_config, path, builtin, baseline, tried, answered, outcome),
        is_search_outcome(
            engine,
            old_config,
            path,
            builtin,
            baseline_again,
            tried_again,
            answered_again,
            outcome_again,
        ),
        show_the_same(baseline, baseline_again, path),
        answered.len() == answered_again.len() ==> forall|i: int|
            0 <= i < answered.len() ==> show_the_same(
                #[trigger] answered[i],
                answered_again[i],
                path,
            ),
    ensures
        match outcome {
            Ok(found) => outcome_again matches Ok(again) && suggestions_view(found@)
                == suggestions_view(again@),
            Err(_) => outcome_again is Err,
        },
{
    if baseline is Ok {
        let edits = all_edits(builtin, old_config@, path);
        lemma_effective_among_same_answers(
            raw_value_at(baseline->Ok_0, path),
            edits,
            answered,
            answered_again,
            path,
            edits.len(),
        );
    }
}

/// A path that is one segment addresses the node that the segment names.
pub proof fn lemma_resolve_segment(node: Annotated, segment: Seq<char>)
    requires
        is_segment(segment),
    ensures
        resolve(node, segment) == child(node, segment),
{
    lemma_segment_len_is(segment, segment.len() as int);
    assert(first_segment(segment) =~= segment);
}

/// The path made for a node addresses it: where `path` is a plain path and
/// `segment` names a node, the path below `path` is a plain path again, and
/// it addresses the node that `segment` names below the node that `path`
/// addresses, or nothing where `path` addresses nothing.
pub proof fn law_path_below_addresses_the_child(
    node: Annotated,
    path: Seq<char>,
    segment: Seq<char>,
)
    requires
        is_plain_path(path),
        is_segment(segment),
    ensures
        is_plain_path(joined_path(path, segment)),
        resolve(node, joined_path(path, segment)) == match resolve(node, path) {
            Some(found) => child(found, segment),
            None => None,
        },
    decreases path.len(),
{
    let joined = joined_path(path, segment);
    lemma_segment_len_is(segment, segment.len() as int);
    assert(is_plain_path(segment));
    if path.len() == 0 {
        lemma_resolve_segment(node, segment);
    } else {
        let n = segment_len(path) as int;
        lemma_segment_len_bound(path);
        lemma_segment_len_of_joined(path, segment);
        assert(first_segment(joined) =~= first_segment(path));
        assert(!is_root_path(path));
        assert(!is_root_path(joined));
        if n < path.len() {
            let rest = path.skip(n + 1);
            assert(joined.skip(n + 1) =~= joined_path(rest, segment));
            match child(node, first_segment(path)) {
                Some(below) => {
                    law_path_below_addresses_the_child(below, rest, segment);
                },
                None => {
                    law_path_below_addresses_the_child(node, rest, segment);
                },
            }
        } else {
            assert(joined.skip(n + 1) =~= segment);
            match child(node, first_segment(path)) {
                Some(below) => {
                    lemma_resolve_segment(below, segment);
                },
                None => {},
            }
        }
    }
}

} // verus!
