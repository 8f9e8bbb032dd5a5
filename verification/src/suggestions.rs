//! The search for edits of a configuration that change what the redaction
//! engine does to one value of an event. The engine is a black box, so the
//! search tries every edit it knows: each known rule applied to, and taken
//! away from, each kind of content, and one rule made for the key under which
//! the value stands. An edit is suggested where the engine, asked again with
//! the edited configuration, hands back another raw value at the path.

use vstd::prelude::*;
use crate::annotated::{
    get_value_by_path, raw_of, raw_value_at, same_found, Annotated, RawValue, StrippedEvent,
};
use crate::document::Entries;
use crate::text::{chars_of, last_segment, segment_end, texts};
use crate::types::{
    is_answer_of, key_rule_name, known_rules, with_key_rule_defined, with_rule_added,
    with_rule_removed, PiiConfig,
};

verus! {

/// An edit of the configuration that changes what becomes of the value.
#[derive(Debug, PartialEq, Eq)]
pub enum PiiRuleSuggestion {
    /// Apply `rule` to the content of kind `pii_kind`.
    ActivateRule { pii_kind: String, rule: String, config: PiiConfig },
    /// No longer apply `rule` to the content of kind `pii_kind`.
    DeactivateRule { pii_kind: String, rule: String, config: PiiConfig },
    /// Define a rule that takes away the entries named `key_name`, and apply
    /// it to the content of kind `pii_kind`.
    RemoveKeyNamed { pii_kind: String, key_name: String, config: PiiConfig },
}

/// What a suggestion holds. `config` is the whole configuration as the edit
/// leaves it.
pub enum Suggestion {
    ActivateRule { pii_kind: Seq<char>, rule: Seq<char>, config: Entries },
    DeactivateRule { pii_kind: Seq<char>, rule: Seq<char>, config: Entries },
    RemoveKeyNamed {
        pii_kind: Seq<char>,
        key_name: Seq<char>,
        config: Entries,
    },
}

impl View for PiiRuleSuggestion {
    type V = Suggestion;

    open spec fn view(&self) -> Suggestion {
        match self {
            PiiRuleSuggestion::ActivateRule { pii_kind, rule, config } => Suggestion::ActivateRule {
                pii_kind: pii_kind@,
                rule: rule@,
                config: config@,
            },
            PiiRuleSuggestion::DeactivateRule {
                pii_kind,
                rule,
                config,
            } => Suggestion::DeactivateRule { pii_kind: pii_kind@, rule: rule@, config: config@ },
            PiiRuleSuggestion::RemoveKeyNamed {
                pii_kind,
                key_name,
                config,
            } => Suggestion::RemoveKeyNamed {
                pii_kind: pii_kind@,
                key_name: key_name@,
                config: config@,
            },
        }
    }
}

/// The kind of content that a suggestion is about.
pub open spec fn kind_of(suggestion: Suggestion) -> Seq<char> {
    match suggestion {
        Suggestion::ActivateRule { pii_kind, .. } => pii_kind,
        Suggestion::DeactivateRule { pii_kind, .. } => pii_kind,
        Suggestion::RemoveKeyNamed { pii_kind, .. } => pii_kind,
    }
}

/// The configuration as a suggestion leaves it.
pub open spec fn config_of(suggestion: Suggestion) -> Entries {
    match suggestion {
        Suggestion::ActivateRule { config, .. } => config,
        Suggestion::DeactivateRule { config, .. } => config,
        Suggestion::RemoveKeyNamed { config, .. } => config,
    }
}

/// What each of the suggestions holds, one for one.
pub open spec fn suggestions_view(suggestions: Seq<PiiRuleSuggestion>) -> Seq<Suggestion> {
    Seq::new(suggestions.len(), |i: int| suggestions[i]@)
}

impl PiiRuleSuggestion {
    /// The kind of content that the suggestion is about.
    pub fn pii_kind(&self) -> (kind: &str)
        ensures
            kind@ == kind_of(self@),
    {
        match self {
            PiiRuleSuggestion::ActivateRule { pii_kind, .. } => pii_kind.as_str(),
            PiiRuleSuggestion::DeactivateRule { pii_kind, .. } => pii_kind.as_str(),
            PiiRuleSuggestion::RemoveKeyNamed { pii_kind, .. } => pii_kind.as_str(),
        }
    }

    /// The configuration as the suggestion leaves it.
    pub fn config(&self) -> (config: &PiiConfig)
        ensures
            config@ == config_of(self@),
    {
        match self {
            PiiRuleSuggestion::ActivateRule { config, .. } => config,
            PiiRuleSuggestion::DeactivateRule { config, .. } => config,
            PiiRuleSuggestion::RemoveKeyNamed { config, .. } => config,
        }
    }
}

/// The kinds of content that rules can be applied to, in the order in which
/// the search goes through them.
pub open spec fn pii_kinds() -> Seq<Seq<char>> {
    seq![
        "**"@,
        "$string"@,
        "$number"@,
        "$boolean"@,
        "$datetime"@,
        "$array"@,
        "$object"@,
        "$event"@,
        "$exception"@,
        "$stacktrace"@,
        "$frame"@,
        "$request"@,
        "$user"@,
        "$logentry"@,
        "$thread"@,
        "$breadcrumb"@,
        "$span"@,
        "$sdk"@,
    ]
}

/// What the search for the value at `path` applies rules to: every kind of
/// content, and then the path itself.
pub open spec fn categories(path: Seq<char>) -> Seq<Seq<char>> {
    pii_kinds().push(path)
}

/// The kinds of content that rules can be applied to.
pub fn pii_kind_names() -> (kinds: Vec<String>)
    ensures
        texts(kinds@) == pii_kinds(),
{
    let mut kinds: Vec<String> = Vec::new();
    kinds.push("**".to_owned());
    kinds.push("$string".to_owned());
    kinds.push("$number".to_owned());
    kinds.push("$boolean".to_owned());
    kinds.push("$datetime".to_owned());
    kinds.push("$array".to_owned());
    kinds.push("$object".to_owned());
    kinds.push("$event".to_owned());
    kinds.push("$exception".to_owned());
    kinds.push("$stacktrace".to_owned());
    kinds.push("$frame".to_owned());
    kinds.push("$request".to_owned());
    kinds.push("$user".to_owned());
    kinds.push("$logentry".to_owned());
    kinds.push("$thread".to_owned());
    kinds.push("$breadcrumb".to_owned());
    kinds.push("$span".to_owned());
    kinds.push("$sdk".to_owned());
    assert(texts(kinds@) =~= pii_kinds());
    kinds
}

/// The edits to try with one rule and one kind: applying the rule to the
/// kind, and then taking it away from the kind, each where it can be done and
/// changes the configuration.
pub open spec fn edits_of_rule(config: Entries, kind: Seq<char>, rule: Seq<char>) -> Seq<
    Suggestion,
> {
    (match with_rule_added(config, kind, rule) {
        Ok((added, changed)) => if changed {
            seq![Suggestion::ActivateRule { pii_kind: kind, rule: rule, config: added }]
        } else {
            Seq::empty()
        },
        Err(_) => Seq::empty(),
    }) + (match with_rule_removed(config, kind, rule) {
        Ok((removed, changed)) => if changed {
            seq![Suggestion::DeactivateRule { pii_kind: kind, rule: rule, config: removed }]
        } else {
            Seq::empty()
        },
        Err(_) => Seq::empty(),
    })
}

/// The edits to try with each of `rules` in turn and one kind.
pub open spec fn edits_of_rules(config: Entries, kind: Seq<char>, rules: Seq<Seq<char>>) -> Seq<
    Suggestion,
>
    decreases rules.len(),
{
    if rules.len() == 0 {
        Seq::empty()
    } else {
        edits_of_rules(config, kind, rules.drop_last()) + edits_of_rule(config, kind, rules.last())
    }
}

/// The edit to try for the entries named `key` and one kind: defining the
/// rule that takes such entries away, and applying it to the kind, where
/// both can be done and the rule was not applied to the kind before. No edit
/// for an empty key.
pub open spec fn edit_of_key(config: Entries, kind: Seq<char>, key: Seq<char>) -> Seq<Suggestion> {
    if key.len() == 0 {
        Seq::empty()
    } else {
        match with_key_rule_defined(config, key_rule_name(config, key), key) {
            Err(_) => Seq::empty(),
            Ok(defined) => match with_rule_added(defined, kind, key_rule_name(config, key)) {
                Err(_) => Seq::empty(),
                Ok((edited, changed)) => if changed {
                    seq![
                        Suggestion::RemoveKeyNamed {
                            pii_kind: kind,
                            key_name: key,
                            config: edited,
                        },
                    ]
                } else {
                    Seq::empty()
                },
            },
        }
    }
}

/// The edits to try with one kind: those of each rule in turn, then the one
/// for the key.
pub open spec fn edits_of_kind(
    config: Entries,
    kind: Seq<char>,
    rules: Seq<Seq<char>>,
    key: Seq<char>,
) -> Seq<Suggestion> {
    edits_of_rules(config, kind, rules) + edit_of_key(config, kind, key)
}

/// The edits to try with each of `kinds` in turn.
pub open spec fn edits_of_kinds(
    config: Entries,
    kinds: Seq<Seq<char>>,
    rules: Seq<Seq<char>>,
    key: Seq<char>,
) -> Seq<Suggestion>
    decreases kinds.len(),
{
    if kinds.len() == 0 {
        Seq::empty()
    } else {
        edits_of_kinds(config, kinds.drop_last(), rules, key) + edits_of_kind(
            config,
            kinds.last(),
            rules,
            key,
        )
    }
}

/// Every edit that the search for the value at `path` tries, in the order in
/// which it tries them: kind by kind, and rule by rule within a kind. The
/// rules are those that the configuration knows; the key is the last segment
/// of the path. An edit that cannot be made, because a section of the
/// configuration has the wrong shape, is not among them.
pub open spec fn all_edits(builtin: Seq<Seq<char>>, config: Entries, path: Seq<char>) -> Seq<
    Suggestion,
> {
    edits_of_kinds(config, categories(path), known_rules(builtin, config), last_segment(path))
}

/// Puts behind `found` the edits to try with one rule and one kind.
fn push_edits_of_rule(
    found: &mut Vec<PiiRuleSuggestion>,
    config: &PiiConfig,
    kind: &String,
    rule: &String,
)
    ensures
        suggestions_view(final(found)@) == suggestions_view(old(found)@) + edits_of_rule(
            config@,
            kind@,
            rule@,
        ),
{
    let ghost before = suggestions_view(found@);
    match config.with_rule_added(kind.as_str(), rule.as_str()) {
        Ok((added, changed)) => {
            if changed {
                found.push(
                    PiiRuleSuggestion::ActivateRule {
                        pii_kind: kind.clone(),
                        rule: rule.clone(),
                        config: added,
                    },
                );
            }
        },
        Err(_) => {},
    }
    match config.with_rule_removed(kind.as_str(), rule.as_str()) {
        Ok((removed, changed)) => {
            if changed {
                found.push(
                    PiiRuleSuggestion::DeactivateRule {
                        pii_kind: kind.clone(),
                        rule: rule.clone(),
                        config: removed,
                    },
                );
            }
        },
        Err(_) => {},
    }
    assert(suggestions_view(found@) =~= before + edits_of_rule(config@, kind@, rule@));
}

/// Puts behind `found` the edit to try for the entries named `key` and one
/// kind.
fn push_edit_of_key(
    found: &mut Vec<PiiRuleSuggestion>,
    config: &PiiConfig,
    kind: &String,
    key: &String,
)
    ensures
        suggestions_view(final(found)@) == suggestions_view(old(found)@) + edit_of_key(
            config@,
            kind@,
            key@,
        ),
{
    let ghost before = suggestions_view(found@);
    if !key.as_str().is_empty() {
        let name: String = config.key_rule_name(key.as_str());
        match config.with_key_rule_defined(name.as_str(), key.as_str()) {
            Ok(defined) => {
                match defined.with_rule_added(kind.as_str(), name.as_str()) {
                    Ok((edited, changed)) => {
                        if changed {
                            found.push(
                                PiiRuleSuggestion::RemoveKeyNamed {
                                    pii_kind: kind.clone(),
                                    key_name: key.clone(),
                                    config: edited,
                                },
                            );
                        }
                    },
                    Err(_) => {},
                }
            },
            Err(_) => {},
        }
    }
    assert(suggestions_view(found@) =~= before + edit_of_key(config@, kind@, key@));
}

/// Puts behind `found` the edits to try with one kind.
fn push_edits_of_kind(
    found: &mut Vec<PiiRuleSuggestion>,
    config: &PiiConfig,
    kind: &String,
    rules: &Vec<String>,
    key: &String,
)
    ensures
        suggestions_view(final(found)@) == suggestions_view(old(found)@) + edits_of_kind(
            config@,
            kind@,
            texts(rules@),
            key@,
        ),
{
    let ghost before = suggestions_view(found@);
    let ghost names = texts(rules@);
    let mut i: usize = 0;
    assert(suggestions_view(found@) =~= before + edits_of_rules(config@, kind@, names.take(0)));
    while i < rules.len()
        invariant
            i <= rules.len(),
            names == texts(rules@),
            suggestions_view(found@) == before + edits_of_rules(
                config@,
                kind@,
                names.take(i as int),
            ),
        decreases rules.len() - i,
    {
        proof {
            assert(names.take(i as int + 1).drop_last() =~= names.take(i as int));
            assert(names.take(i as int + 1).last() == rules@[i as int]@);
        }
        let ghost tried = edits_of_rules(config@, kind@, names.take(i as int));
        let ghost more = edits_of_rule(config@, kind@, rules@[i as int]@);
        push_edits_of_rule(found, config, kind, &rules[i]);
        assert(before + tried + more =~= before + (tried + more));
        i += 1;
    }
    assert(names.take(i as int) =~= names);
    let ghost tried = edits_of_rules(config@, kind@, names);
    let ghost more = edit_of_key(config@, kind@, key@);
    push_edit_of_key(found, config, kind, key);
    assert(before + tried + more =~= before + (tried + more));
}

/// The last segment of `path`: what follows its last `.`.
pub fn last_segment_of(path: &str) -> (segment: String)
    ensures
        segment@ == last_segment(path@),
{
    let chars = chars_of(path);
    let mut start: usize = 0;
    assert(chars@.skip(0) =~= path@);
    loop
        invariant
            chars@ == path@,
            start <= chars.len(),
            last_segment(path@) == last_segment(chars@.skip(start as int)),
        decreases chars.len() - start,
    {
        let end: usize = segment_end(&chars, start);
        if end < chars.len() {
            assert(chars@.skip(start as int).skip(end - start + 1) =~= chars@.skip(end as int + 1));
            start = end + 1;
        } else {
            assert(chars@.skip(start as int) =~= path@.subrange(start as int, chars.len() as int));
            return path.substring_char(start, chars.len()).to_owned();
        }
    }
}

/// Every edit that the search for the value at `path` tries, in the order in
/// which it tries them, each with the configuration as it leaves it. Only
/// edits that change the configuration are among them; an edit that cannot
/// be made, because a section of the configuration has the wrong shape, is
/// left out.
pub fn candidate_edits(config: &PiiConfig, path: &str, builtin_rules: &Vec<String>) -> (found: Vec<
    PiiRuleSuggestion,
>)
    ensures
        suggestions_view(found@) == all_edits(texts(builtin_rules@), config@, path@),
{
    let rules: Vec<String> = config.get_known_rules(builtin_rules);
    let key: String = last_segment_of(path);
    let mut kinds: Vec<String> = pii_kind_names();
    kinds.push(path.to_owned());
    let ghost names = texts(kinds@);
    assert(names =~= categories(path@));
    let mut found: Vec<PiiRuleSuggestion> = Vec::new();
    let mut i: usize = 0;
    assert(suggestions_view(found@) =~= Seq::<Suggestion>::empty());
    while i < kinds.len()
        invariant
            i <= kinds.len(),
            names == texts(kinds@),
            names == categories(path@),
            texts(rules@) == known_rules(texts(builtin_rules@), config@),
            key@ == last_segment(path@),
            suggestions_view(found@) == edits_of_kinds(
                config@,
                names.take(i as int),
                texts(rules@),
                key@,
            ),
        decreases kinds.len() - i,
    {
        proof {
            assert(names.take(i as int + 1).drop_last() =~= names.take(i as int));
            assert(names.take(i as int + 1).last() == kinds@[i as int]@);
        }
        push_edits_of_kind(&mut found, config, &kinds[i], &rules, &key);
        i += 1;
    }
    assert(names.take(i as int) =~= names);
    found
}

/// Whether the engine's answer shows another raw value at `path` than
/// `baseline`. An answer that is an error shows none.
pub open spec fn makes_difference(
    baseline: Option<RawValue>,
    answer: Result<StrippedEvent, String>,
    path: Seq<char>,
) -> bool {
    match answer {
        Ok(result) => raw_value_at(result, path) != baseline,
        Err(_) => false,
    }
}

/// Those among the first `n` edits whose answer makes a difference, in their
/// order. An edit without an answer is left out.
pub open spec fn effective_among(
    baseline: Option<RawValue>,
    edits: Seq<Suggestion>,
    answers: Seq<Result<StrippedEvent, String>>,
    path: Seq<char>,
    n: nat,
) -> Seq<Suggestion>
    decreases n,
{
    if n == 0 {
        Seq::empty()
    } else if n <= edits.len() && n <= answers.len() && makes_difference(
        baseline,
        answers[n - 1],
        path,
    ) {
        effective_among(baseline, edits, answers, path, (n - 1) as nat).push(edits[n - 1])
    } else {
        effective_among(baseline, edits, answers, path, (n - 1) as nat)
    }
}

/// The edits whose answer makes a difference, in their order.
pub open spec fn effective_edits(
    baseline: Option<RawValue>,
    edits: Seq<Suggestion>,
    answers: Seq<Result<StrippedEvent, String>>,
    path: Seq<char>,
) -> Seq<Suggestion> {
    effective_among(baseline, edits, answers, path, edits.len())
}

/// Whether the engine's answer to an edited configuration shows another raw
/// value at `path` than `old_value`, the one found there before the edit.
pub fn rule_does_something(
    old_value: Option<&Annotated>,
    new_result: &Result<StrippedEvent, String>,
    path: &str,
) -> (differs: bool)
    ensures
        differs == makes_difference(raw_of(old_value), *new_result, path@),
{
    match new_result {
        Ok(result) => !same_found(get_value_by_path(result, path), old_value),
        Err(_) => false,
    }
}

/// Picks the suggestions out of the edits that were tried: `new_results`
/// holds, for each of `candidates` in turn, what the engine answered to its
/// configuration, and `old_result` what it answered before any edit. An edit
/// is kept where its answer shows another raw value at `path`.
pub fn select_suggestions(
    old_result: &StrippedEvent,
    candidates: Vec<PiiRuleSuggestion>,
    new_results: &Vec<Result<StrippedEvent, String>>,
    path: &str,
) -> (found: Vec<PiiRuleSuggestion>)
    ensures
        suggestions_view(found@) == effective_edits(
            raw_value_at(*old_result, path@),
            suggestions_view(candidates@),
            new_results@,
            path@,
        ),
{
    let old_value: Option<&Annotated> = get_value_by_path(old_result, path);
    let ghost baseline = raw_value_at(*old_result, path@);
    let ghost edits = suggestions_view(candidates@);
    let mut found: Vec<PiiRuleSuggestion> = Vec::new();
    let mut i: usize = 0;
    let count: usize = candidates.len();
    assert(suggestions_view(found@) =~= Seq::<Suggestion>::empty());
    for candidate in it: candidates
        invariant
            it.seq() == candidates@,
            it.seq().len() == count,
            edits == suggestions_view(candidates@),
            i == it.index(),
            baseline == raw_of(old_value),
            suggestions_view(found@) == effective_among(
                baseline,
                edits,
                new_results@,
                path@,
                i as nat,
            ),
    {
        let ghost kept = suggestions_view(found@);
        assert(edits[i as int] == candidate@);
        if i < new_results.len() && rule_does_something(old_value, &new_results[i], path) {
            found.push(candidate);
            assert(suggestions_view(found@) =~= kept.push(edits[i as int]));
        }
        i += 1;
    }
    found
}

/// Why a search found no suggestions.
#[derive(Debug, PartialEq, Eq)]
pub enum SuggestError {
    /// The engine failed on the configuration as it stands; these are its
    /// words.
    Engine(String),
}

impl SuggestError {
    /// The error in words.
    pub fn message(&self) -> (text: String)
        ensures
            text@ == self->Engine_0@,
    {
        match self {
            SuggestError::Engine(words) => words.clone(),
        }
    }
}

/// Whether `outcome` is what the search for the value at `path` comes to,
/// given what the engine answered: `baseline` to the configuration as it
/// stands, and `answered`, one for one, to the configurations `tried`.
///
/// A baseline that is an error ends the search with that error, and nothing
/// else does. Otherwise the configurations tried are those of all edits, in
/// their order, and the search finds the edits whose answer shows another
/// raw value at the path than the baseline does.
pub open spec fn is_search_outcome<F: Fn(&PiiConfig) -> Result<StrippedEvent, String>>(
    engine: F,
    old_config: PiiConfig,
    path: Seq<char>,
    builtin: Seq<Seq<char>>,
    baseline: Result<StrippedEvent, String>,
    tried: Seq<PiiConfig>,
    answered: Seq<Result<StrippedEvent, String>>,
    outcome: Result<Vec<PiiRuleSuggestion>, SuggestError>,
) -> bool {
    &&& is_answer_of(engine, old_config, baseline)
    &&& match baseline {
        Err(words) => outcome matches Err(SuggestError::Engine(given)) && given == words,
        Ok(old_result) => {
            let edits = all_edits(builtin, old_config@, path);
            &&& tried.len() == edits.len()
            &&& answered.len() == edits.len()
            &&& forall|i: int|
                0 <= i < edits.len() ==> (#[trigger] tried[i])@ == config_of(edits[i])
                    && is_answer_of(engine, tried[i], answered[i])
            &&& outcome matches Ok(found) && suggestions_view(found@) == effective_edits(
                raw_value_at(old_result, path),
                edits,
                answered,
                path,
            )
        },
    }
}

/// Searches for the edits of `old_config` that change what the engine does
/// to the value at `path`. `engine` redacts the event in question with the
/// configuration it is given; `builtin_rules` names the rules that the engine
/// knows by itself.
///
/// The engine is asked once with the configuration as it stands, and once
/// for every edit. An error on the first occasion ends the search, and
/// nothing else does: an error on a later occasion only means that the edit
/// is not suggested, and an edit that the configuration does not allow is
/// not tried. The suggestions come in the order in which the edits are
/// tried.
pub fn get_rule_suggestions_for_value<F: Fn(&PiiConfig) -> Result<StrippedEvent, String>>(
    engine: &F,
    old_config: &PiiConfig,
    path: &str,
    builtin_rules: &Vec<String>,
) -> (outcome: Result<Vec<PiiRuleSuggestion>, SuggestError>)
    requires
        forall|config: &PiiConfig| call_requires(*engine, (config,)),
    ensures
        exists|
            baseline: Result<StrippedEvent, String>,
            tried: Seq<PiiConfig>,
            answered: Seq<Result<StrippedEvent, String>>,
        |
            is_search_outcome(
                *engine,
                *old_config,
                path@,
                texts(builtin_rules@),
                baseline,
                tried,
                answered,
                outcome,
            ),
{
    let baseline: Result<StrippedEvent, String> = old_config.strip_event(engine);
    let ghost first = baseline;
    let old_result: StrippedEvent = match baseline {
        Ok(result) => result,
        Err(words) => {
            let outcome = Err(SuggestError::Engine(words));
            assert(is_search_outcome(
                *engine,
                *old_config,
                path@,
                texts(builtin_rules@),
                first,
                Seq::empty(),
                Seq::empty(),
                outcome,
            ));
            return outcome;
        },
    };
    let candidates: Vec<PiiRuleSuggestion> = candidate_edits(old_config, path, builtin_rules);
    let ghost edits = suggestions_view(candidates@);
    let ghost mut tried: Seq<PiiConfig> = Seq::empty();
    let mut answers: Vec<Result<StrippedEvent, String>> = Vec::new();
    let mut i: usize = 0;
    while i < candidates.len()
        invariant
            forall|config: &PiiConfig| call_requires(*engine, (config,)),
            i <= candidates.len(),
            edits == suggestions_view(candidates@),
            tried.len() == i,
            answers.len() == i,
            forall|k: int|
                0 <= k < i ==> (#[trigger] tried[k])@ == config_of(edits[k]) && is_answer_of(
                    *engine,
                    tried[k],
                    answers@[k],
                ),
        decreases candidates.len() - i,
    {
        let edited: &PiiConfig = candidates[i].config();
        let ghost asked = *edited;
        let answer: Result<StrippedEvent, String> = edited.strip_event(engine);
        answers.push(answer);
        proof {
            tried = tried.push(asked);
        }
        i += 1;
    }
    let found: Vec<PiiRuleSuggestion> = select_suggestions(&old_result, candidates, &answers, path);
    let outcome = Ok(found);
    assert(is_search_outcome(
        *engine,
        *old_config,
        path@,
        texts(builtin_rules@),
        first,
        tried,
        answers@,
        outcome,
    ));
    outcome
}

} // verus!
