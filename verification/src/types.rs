//! The redaction configuration: a document with two sections that this
//! library reads. `applications` names, for each kind of content, the rules
//! applied to it; `rules` defines rules of the configuration's own. Whatever
//! else the document holds is carried along untouched.

use vstd::prelude::*;
use crate::annotated::{is_without_sidecar, strip_sidecar, StrippedEvent};
use crate::text::{holds_text, same_text, texts};
use crate::document::{
    clone_entries, distinct_keys, entries_view, find_key, get, items_view, key_index, keys_of,
    lemma_array_view, lemma_get_after_put, lemma_get_other_after_put, lemma_key_index,
    lemma_object_view, lemma_put_keeps_keys_distinct, lemma_remove_keeps_keys_distinct, put,
    remove_key, Entries, Json, JsonView,
};
use crate::sequence::{first_index_of, lemma_first_index_of, lemma_first_index_of_is};

verus! {

/// Why a configuration cannot be edited.
#[derive(Clone, Copy, Debug, PartialEq, Eq, Structural)]
pub enum ConfigError {
    /// `applications` is there and is not a mapping.
    BadApplications,
    /// The rules applied to a kind are there and are not a sequence.
    BadPiiKind,
    /// `rules` is there and is not a mapping.
    BadRules,
}

/// The words for each error.
pub open spec fn error_text(error: ConfigError) -> Seq<char> {
    match error {
        ConfigError::BadApplications => "Bad applications value"@,
        ConfigError::BadPiiKind => "Bad PII kind value"@,
        ConfigError::BadRules => "Bad rules value"@,
    }
}

impl ConfigError {
    /// The error in words.
    pub fn message(&self) -> (text: String)
        ensures
            text@ == error_text(*self),
    {
        match self {
            ConfigError::BadApplications => "Bad applications value".to_owned(),
            ConfigError::BadPiiKind => "Bad PII kind value".to_owned(),
            ConfigError::BadRules => "Bad rules value".to_owned(),
        }
    }
}

/// A redaction configuration: the entries of its top-level mapping.
///
/// A configuration is well formed where no name is entered twice: not at the
/// top, not among the kinds of `applications`, and not among the rules of
/// `rules`. Every edit keeps a well-formed configuration well formed. The
/// operations work on any configuration all the same, and do exactly what
/// their contracts say; where a name is entered twice its first entry is the
/// one that is read and edited, so that taking the last rule away from a kind
/// removes that entry and lets a later entry of the same kind show. What is
/// proved of several edits in a row is proved of well-formed configurations.
#[derive(Debug, PartialEq, Eq)]
pub struct PiiConfig(pub Vec<(String, Json)>);

impl View for PiiConfig {
    type V = Entries;

    open spec fn view(&self) -> Entries {
        entries_view(self.0@)
    }
}

impl Clone for PiiConfig {
    /// A configuration that holds what this one holds.
    fn clone(&self) -> (copy: PiiConfig)
        ensures
            copy@ == self@,
    {
        PiiConfig(clone_entries(&self.0))
    }
}

/// The name of the section that applies rules to kinds of content.
pub open spec fn applications_key() -> Seq<char> {
    "applications"@
}

/// The name of the section that defines rules.
pub open spec fn rules_key() -> Seq<char> {
    "rules"@
}

/// Whether the configuration is well formed: no name is entered twice at the
/// top, no kind twice in `applications`, and no rule twice in `rules`.
pub open spec fn is_well_formed(config: Entries) -> bool {
    &&& distinct_keys(config)
    &&& match get(config, applications_key()) {
        Some(JsonView::Object(applications)) => distinct_keys(applications),
        _ => true,
    }
    &&& match get(config, rules_key()) {
        Some(JsonView::Object(rules)) => distinct_keys(rules),
        _ => true,
    }
}

impl PiiConfig {
    /// Whether this configuration is well formed.
    pub open spec fn well_formed(&self) -> bool {
        is_well_formed(self@)
    }
}

/// The two sections have different names.
pub proof fn lemma_sections_differ()
    ensures
        applications_key() != rules_key(),
{
    reveal_strlit("rules");
    reveal_strlit("applications");
    assert(rules_key().len() != applications_key().len());
}

/// A rule's name as it stands among the rules applied to a kind.
pub open spec fn rule_item(rule: Seq<char>) -> JsonView {
    JsonView::String(rule)
}

/// The entries of `applications`: none where the section is missing, and an
/// error where it is no mapping.
pub open spec fn applications_of(config: Entries) -> Result<
    Entries,
    ConfigError,
> {
    match get(config, applications_key()) {
        None => Ok(Seq::empty()),
        Some(JsonView::Object(applications)) => Ok(applications),
        Some(_) => Err(ConfigError::BadApplications),
    }
}

/// The rules applied to `kind`: none where the kind is not entered, and an
/// error where what is entered is no sequence.
pub open spec fn rules_of_kind(applications: Entries, kind: Seq<char>) -> Result<
    Seq<JsonView>,
    ConfigError,
> {
    match get(applications, kind) {
        None => Ok(Seq::empty()),
        Some(JsonView::Array(rules)) => Ok(rules),
        Some(_) => Err(ConfigError::BadPiiKind),
    }
}

/// Whether `rule` is applied to `kind`.
pub open spec fn is_applied(config: Entries, kind: Seq<char>, rule: Seq<char>) -> bool {
    match applications_of(config) {
        Ok(applications) => match rules_of_kind(applications, kind) {
            Ok(rules) => rules.contains(rule_item(rule)),
            Err(_) => false,
        },
        Err(_) => false,
    }
}

/// The entries of `applications` once `rule` is applied to `kind`, and
/// whether that changed them. The rule goes behind the rules already applied
/// to the kind, unless it is among them.
pub open spec fn rule_added_to(
    applications: Entries,
    kind: Seq<char>,
    rule: Seq<char>,
) -> Result<(Entries, bool), ConfigError> {
    match rules_of_kind(applications, kind) {
        Err(error) => Err(error),
        Ok(rules) => if rules.contains(rule_item(rule)) {
            Ok((applications, false))
        } else {
            Ok((put(applications, kind, JsonView::Array(rules.push(rule_item(rule)))), true))
        },
    }
}

/// The configuration once `rule` is applied to `kind`, and whether that
/// changed it.
pub open spec fn with_rule_added(
    config: Entries,
    kind: Seq<char>,
    rule: Seq<char>,
) -> Result<(Entries, bool), ConfigError> {
    match applications_of(config) {
        Err(error) => Err(error),
        Ok(applications) => match rule_added_to(applications, kind, rule) {
            Err(error) => Err(error),
            Ok((edited, changed)) => if changed {
                Ok((put(config, applications_key(), JsonView::Object(edited)), true))
            } else {
                Ok((config, false))
            },
        },
    }
}

/// The entries of `applications` once `rule` is no longer applied to `kind`,
/// and whether that changed them. The first mention of the rule leaves the
/// kind; a kind left without rules leaves the entries.
pub open spec fn rule_removed_from(
    applications: Entries,
    kind: Seq<char>,
    rule: Seq<char>,
) -> Result<(Entries, bool), ConfigError> {
    match rules_of_kind(applications, kind) {
        Err(error) => Err(error),
        Ok(rules) => match first_index_of(rules, rule_item(rule)) {
            None => Ok((applications, false)),
            Some(at) => if rules.remove(at).len() == 0 {
                Ok((remove_key(applications, kind), true))
            } else {
                Ok((put(applications, kind, JsonView::Array(rules.remove(at))), true))
            },
        },
    }
}

/// The configuration once `rule` is no longer applied to `kind`, and whether
/// that changed it.
pub open spec fn with_rule_removed(
    config: Entries,
    kind: Seq<char>,
    rule: Seq<char>,
) -> Result<(Entries, bool), ConfigError> {
    match applications_of(config) {
        Err(error) => Err(error),
        Ok(applications) => match rule_removed_from(applications, kind, rule) {
            Err(error) => Err(error),
            Ok((edited, changed)) => if changed {
                Ok((put(config, applications_key(), JsonView::Object(edited)), true))
            } else {
                Ok((config, false))
            },
        },
    }
}

/// Once a rule was applied to a kind, it is among the rules of that kind.
pub proof fn lemma_added_rule_is_applied(config: Entries, kind: Seq<char>, rule: Seq<char>)
    requires
        with_rule_added(config, kind, rule) is Ok,
    ensures
        is_applied(with_rule_added(config, kind, rule)->Ok_0.0, kind, rule),
{
    let applications = applications_of(config)->Ok_0;
    let rules = rules_of_kind(applications, kind)->Ok_0;
    if !rules.contains(rule_item(rule)) {
        let listed = rules.push(rule_item(rule));
        let edited = put(applications, kind, JsonView::Array(listed));
        lemma_get_after_put(applications, kind, JsonView::Array(listed));
        lemma_get_after_put(config, applications_key(), JsonView::Object(edited));
        assert(listed[rules.len() as int] == rule_item(rule));
    }
}

/// Applying a rule to a kind, or taking one away from it, keeps a well-formed
/// configuration well formed.
pub proof fn lemma_rule_edits_keep_well_formed(config: Entries, kind: Seq<char>, rule: Seq<char>)
    requires
        is_well_formed(config),
    ensures
        with_rule_added(config, kind, rule) matches Ok((added, _)) ==> is_well_formed(added),
        with_rule_removed(config, kind, rule) matches Ok((removed, _)) ==> is_well_formed(removed),
{
    lemma_sections_differ();
    if applications_of(config) is Ok {
        let applications = applications_of(config)->Ok_0;
        assert(distinct_keys(applications));
        if rules_of_kind(applications, kind) is Ok {
            let rules = rules_of_kind(applications, kind)->Ok_0;
            let item = rule_item(rule);
            if !rules.contains(item) {
                let listed = JsonView::Array(rules.push(item));
                let grown = put(applications, kind, listed);
                let added = put(config, applications_key(), JsonView::Object(grown));
                lemma_put_keeps_keys_distinct(applications, kind, listed);
                lemma_put_keeps_keys_distinct(config, applications_key(), JsonView::Object(grown));
                lemma_get_after_put(config, applications_key(), JsonView::Object(grown));
                lemma_get_other_after_put(
                    config,
                    applications_key(),
                    JsonView::Object(grown),
                    rules_key(),
                );
                assert(is_well_formed(added));
            }
            lemma_first_index_of(rules, item);
            if rules.contains(item) {
                let at = first_index_of(rules, item)->Some_0;
                let rest = rules.remove(at);
                let shrunk = if rest.len() == 0 {
                    remove_key(applications, kind)
                } else {
                    put(applications, kind, JsonView::Array(rest))
                };
                let removed = put(config, applications_key(), JsonView::Object(shrunk));
                lemma_remove_keeps_keys_distinct(applications, kind);
                lemma_put_keeps_keys_distinct(applications, kind, JsonView::Array(rest));
                lemma_put_keeps_keys_distinct(config, applications_key(), JsonView::Object(shrunk));
                lemma_get_after_put(config, applications_key(), JsonView::Object(shrunk));
                lemma_get_other_after_put(
                    config,
                    applications_key(),
                    JsonView::Object(shrunk),
                    rules_key(),
                );
                assert(is_well_formed(removed));
            }
        }
    }
}

/// The position of the first item that is the text `text`.
pub fn find_text(items: &Vec<Json>, text: &String) -> (found: Option<usize>)
    ensures
        match found {
            Some(i) => first_index_of(items_view(items@), rule_item(text@)) == Some(i as int) && i
                < items.len(),
            None => first_index_of(items_view(items@), rule_item(text@)) is None,
        },
{
    let ghost view = items_view(items@);
    let mut i: usize = 0;
    while i < items.len()
        invariant
            i <= items.len(),
            view == items_view(items@),
            forall|j: int| 0 <= j < i ==> #[trigger] view[j] != rule_item(text@),
        decreases items.len() - i,
    {
        let same: bool = match &items[i] {
            Json::String(s) => *s == *text,
            _ => false,
        };
        if same {
            proof {
                lemma_first_index_of_is(view, rule_item(text@), i as int);
            }
            return Some(i);
        }
        i += 1;
    }
    proof {
        lemma_first_index_of_is(view, rule_item(text@), i as int);
    }
    None
}

/// Applies `rule` to `kind` among the entries of `applications`.
fn add_rule_to(
    applications: &mut Vec<(String, Json)>,
    kind: String,
    rule: String,
) -> (outcome: Result<bool, ConfigError>)
    ensures
        match rule_added_to(entries_view(old(applications)@), kind@, rule@) {
            Ok((edited, changed)) => outcome == Ok::<bool, ConfigError>(changed) && entries_view(
                final(applications)@,
            ) == edited,
            Err(error) => outcome == Err::<bool, ConfigError>(error) && entries_view(
                final(applications)@,
            ) == entries_view(old(applications)@),
        },
{
    let ghost before = entries_view(applications@);
    let ghost name = kind@;
    let at: usize = match find_key(applications, &kind) {
        Some(at) => at,
        None => {
            let fresh: Vec<Json> = Vec::new();
            proof {
                lemma_array_view(fresh);
                assert(items_view(fresh@) =~= Seq::<JsonView>::empty());
            }
            applications.push((kind, Json::Array(fresh)));
            proof {
                assert(entries_view(applications@) =~= before.push(
                    (name, JsonView::Array(Seq::empty())),
                ));
            }
            applications.len() - 1
        },
    };
    proof {
        lemma_key_index(before, name);
    }
    let ghost entered = entries_view(applications@);
    let ghost rules = rules_of_kind(before, name);
    assert(entered[at as int].0 == name);
    assert(rules is Ok ==> entered[at as int].1 == JsonView::Array(rules->Ok_0));
    assert(rules is Err ==> entered == before && !(before[at as int].1 is Array));
    match &mut applications[at].1 {
        Json::Array(items) => {
            proof {
                lemma_array_view(*items);
                lemma_first_index_of(items_view(items@), rule_item(rule@));
            }
            match find_text(items, &rule) {
                Some(_) => Ok(false),
                None => {
                    let ghost listed = items_view(items@);
                    let ghost added = rule@;
                    items.push(Json::String(rule));
                    proof {
                        lemma_array_view(*items);
                        assert(items_view(items@) =~= listed.push(rule_item(added)));
                    }
                    assert(entries_view(applications@) =~= entered.update(
                        at as int,
                        (name, JsonView::Array(listed.push(rule_item(added)))),
                    ));
                    Ok(true)
                },
            }
        },
        _ => Err(ConfigError::BadPiiKind),
    }
}

/// Takes `rule` away from `kind` among the entries of `applications`.
fn remove_rule_from(
    applications: &mut Vec<(String, Json)>,
    kind: &String,
    rule: &String,
) -> (outcome: Result<bool, ConfigError>)
    ensures
        match rule_removed_from(entries_view(old(applications)@), kind@, rule@) {
            Ok((edited, changed)) => outcome == Ok::<bool, ConfigError>(changed) && entries_view(
                final(applications)@,
            ) == edited,
            Err(error) => outcome == Err::<bool, ConfigError>(error) && entries_view(
                final(applications)@,
            ) == entries_view(old(applications)@),
        },
{
    let ghost before = entries_view(applications@);
    let at: usize = match find_key(applications, kind) {
        Some(at) => at,
        None => {
            return Ok(false);
        },
    };
    proof {
        lemma_key_index(before, kind@);
    }
    let ghost listed: Seq<JsonView>;
    let ghost place: int;
    let emptied: bool = match &mut applications[at].1 {
        Json::Array(items) => {
            proof {
                lemma_array_view(*items);
                listed = items_view(items@);
            }
            match find_text(items, rule) {
                None => {
                    return Ok(false);
                },
                Some(found) => {
                    proof {
                        place = found as int;
                    }
                    items.remove(found);
                    proof {
                        lemma_array_view(*items);
                        assert(items_view(items@) =~= listed.remove(place));
                    }
                    items.len() == 0
                },
            }
        },
        _ => {
            return Err(ConfigError::BadPiiKind);
        },
    };
    assert(entries_view(applications@) =~= before.update(
        at as int,
        (kind@, JsonView::Array(listed.remove(place))),
    ));
    if emptied {
        applications.remove(at);
        assert(entries_view(applications@) =~= before.remove(at as int));
    }
    Ok(true)
}

impl PiiConfig {
    /// Applies `rule` to the content of kind `pii_kind`: the rule goes behind
    /// the rules already applied to that kind, unless it is among them. Says
    /// whether the configuration changed. A section of the wrong shape is an
    /// error, and leaves the configuration as it was.
    pub fn add_rule(&mut self, pii_kind: &str, rule: &str) -> (outcome: Result<bool, ConfigError>)
        ensures
            match with_rule_added(old(self)@, pii_kind@, rule@) {
                Ok((edited, changed)) => outcome == Ok::<bool, ConfigError>(changed)
                    && final(self)@ == edited,
                Err(error) => outcome == Err::<bool, ConfigError>(error)
                    && final(self)@ == old(self)@,
            },
            outcome is Ok ==> is_applied(final(self)@, pii_kind@, rule@),
            is_well_formed(old(self)@) ==> is_well_formed(final(self)@),
    {
        let ghost before = self@;
        let section: String = "applications".to_owned();
        let at: usize = match find_key(&self.0, &section) {
            Some(at) => at,
            None => {
                let fresh: Vec<(String, Json)> = Vec::new();
                proof {
                    lemma_object_view(fresh);
                    assert(entries_view(fresh@) =~= Seq::<(Seq<char>, JsonView)>::empty());
                }
                self.0.push((section, Json::Object(fresh)));
                proof {
                    assert(self@ =~= before.push(
                        (applications_key(), JsonView::Object(Seq::empty())),
                    ));
                }
                self.0.len() - 1
            },
        };
        proof {
            lemma_key_index(before, applications_key());
        }
        let ghost entered = self@;
        let ghost edited: Entries;
        let outcome = match &mut self.0[at].1 {
            Json::Object(applications) => {
                proof {
                    lemma_object_view(*applications);
                }
                let outcome = add_rule_to(applications, pii_kind.to_owned(), rule.to_owned());
                proof {
                    lemma_object_view(*applications);
                    edited = entries_view(applications@);
                }
                outcome
            },
            _ => {
                assert(self@ =~= before);
                return Err(ConfigError::BadApplications);
            },
        };
        assert(self@ =~= entered.update(at as int, (applications_key(), JsonView::Object(edited))));
        proof {
            if outcome is Ok {
                let edit = with_rule_added(before, pii_kind@, rule@);
                assert(edit is Ok);
                assert(self@ == edit->Ok_0.0);
                lemma_added_rule_is_applied(before, pii_kind@, rule@);
                if is_well_formed(before) {
                    lemma_rule_edits_keep_well_formed(before, pii_kind@, rule@);
                }
            } else {
                assert(self@ =~= before);
            }
        }
        outcome
    }

    /// No longer applies `rule` to the content of kind `pii_kind`: the first
    /// mention of the rule leaves the kind, and a kind left without rules
    /// leaves `applications`. Says whether the configuration changed. A
    /// section of the wrong shape is an error, and leaves the configuration
    /// as it was.
    pub fn remove_rule(&mut self, pii_kind: &str, rule: &str) -> (outcome: Result<
        bool,
        ConfigError,
    >)
        ensures
            outcome == Ok::<bool, ConfigError>(true) ==> is_applied(old(self)@, pii_kind@, rule@),
            is_well_formed(old(self)@) ==> is_well_formed(final(self)@),
            match with_rule_removed(old(self)@, pii_kind@, rule@) {
                Ok((edited, changed)) => outcome == Ok::<bool, ConfigError>(changed)
                    && final(self)@ == edited,
                Err(error) => outcome == Err::<bool, ConfigError>(error)
                    && final(self)@ == old(self)@,
            },
    {
        let ghost before = self@;
        proof {
            if is_well_formed(before) {
                lemma_rule_edits_keep_well_formed(before, pii_kind@, rule@);
            }
            if applications_of(before) is Ok {
                let applications = applications_of(before)->Ok_0;
                if rules_of_kind(applications, pii_kind@) is Ok {
                    let rules = rules_of_kind(applications, pii_kind@)->Ok_0;
                    lemma_first_index_of(rules, rule_item(rule@));
                }
            }
        }
        let section: String = "applications".to_owned();
        let at: usize = match find_key(&self.0, &section) {
            Some(at) => at,
            None => {
                proof {
                    lemma_first_index_of_is(Seq::empty(), rule_item(rule@), 0);
                    assert(self@ =~= before);
                }
                return Ok(false);
            },
        };
        proof {
            lemma_key_index(before, applications_key());
        }
        let ghost edited: Entries;
        let kind: String = pii_kind.to_owned();
        let name: String = rule.to_owned();
        let outcome = match &mut self.0[at].1 {
            Json::Object(applications) => {
                proof {
                    lemma_object_view(*applications);
                }
                let outcome = remove_rule_from(applications, &kind, &name);
                proof {
                    lemma_object_view(*applications);
                    edited = entries_view(applications@);
                }
                outcome
            },
            _ => {
                assert(self@ =~= before);
                return Err(ConfigError::BadApplications);
            },
        };
        assert(self@ =~= before.update(at as int, (applications_key(), JsonView::Object(edited))));
        proof {
            let edit = with_rule_removed(before, pii_kind@, rule@);
            if edit is Ok {
                assert(self@ == edit->Ok_0.0);
            } else {
                assert(self@ =~= before);
            }
        }
        outcome
    }
}

/// The entries of `rules`, where the section is there and is a mapping; none
/// otherwise.
pub open spec fn defined_rules(config: Entries) -> Entries {
    match get(config, rules_key()) {
        Some(JsonView::Object(rules)) => rules,
        _ => Seq::empty(),
    }
}

/// The names of the rules that the configuration defines, in their order.
pub open spec fn custom_rules(config: Entries) -> Seq<Seq<char>> {
    keys_of(defined_rules(config))
}

/// The names in the order of their first mention, each once.
pub open spec fn without_repeats(names: Seq<Seq<char>>) -> Seq<Seq<char>>
    decreases names.len(),
{
    if names.len() == 0 {
        names
    } else {
        let kept = without_repeats(names.drop_last());
        if kept.contains(names.last()) {
            kept
        } else {
            kept.push(names.last())
        }
    }
}

/// The rules that a configuration knows: the built-in ones first, in the
/// order of their catalog, then the ones it defines itself, each name once.
pub open spec fn known_rules(builtin: Seq<Seq<char>>, config: Entries) -> Seq<
    Seq<char>,
> {
    without_repeats(builtin + custom_rules(config))
}

/// Puts `name` behind `known` unless it is among them.
fn keep_new(known: &mut Vec<String>, name: &String)
    ensures
        texts(final(known)@) == if texts(old(known)@).contains(name@) {
            texts(old(known)@)
        } else {
            texts(old(known)@).push(name@)
        },
{
    if !holds_text(known, name) {
        let ghost before = texts(known@);
        known.push(name.clone());
        assert(texts(known@) =~= before.push(name@));
    }
}

impl PiiConfig {
    /// The names of the rules that this configuration knows: those of
    /// `builtin_rules` first, in their order, then the ones it defines
    /// itself, in theirs; a name that came before is not given again.
    pub fn get_known_rules(&self, builtin_rules: &Vec<String>) -> (known: Vec<String>)
        ensures
            texts(known@) == known_rules(texts(builtin_rules@), self@),
    {
        let ghost builtin = texts(builtin_rules@);
        let mut known: Vec<String> = Vec::new();
        let mut i: usize = 0;
        assert(texts(known@) =~= without_repeats(builtin.take(0)));
        while i < builtin_rules.len()
            invariant
                i <= builtin_rules.len(),
                builtin == texts(builtin_rules@),
                texts(known@) == without_repeats(builtin.take(i as int)),
            decreases builtin_rules.len() - i,
        {
            proof {
                let next = builtin.take(i as int + 1);
                assert(next.drop_last() =~= builtin.take(i as int));
                assert(next.last() == builtin_rules@[i as int]@);
            }
            keep_new(&mut known, &builtin_rules[i]);
            i += 1;
        }
        assert(builtin.take(i as int) =~= builtin);
        let section: String = "rules".to_owned();
        proof {
            lemma_key_index(self@, rules_key());
        }
        match find_key(&self.0, &section) {
            Some(at) => match &self.0[at].1 {
                Json::Object(rules) => {
                    proof {
                        lemma_object_view(*rules);
                    }
                    let ghost custom = keys_of(entries_view(rules@));
                    assert(custom == custom_rules(self@));
                    let mut j: usize = 0;
                    assert(builtin + custom.take(0) =~= builtin);
                    while j < rules.len()
                        invariant
                            j <= rules.len(),
                            custom == keys_of(entries_view(rules@)),
                            texts(known@) == without_repeats(builtin + custom.take(j as int)),
                        decreases rules.len() - j,
                    {
                        proof {
                            let next = builtin + custom.take(j as int + 1);
                            assert(next.drop_last() =~= builtin + custom.take(j as int));
                            assert(next.last() == rules@[j as int].0@);
                        }
                        keep_new(&mut known, &rules[j].0);
                        j += 1;
                    }
                    assert(custom.take(j as int) =~= custom);
                },
                _ => {
                    assert(builtin + custom_rules(self@) =~= builtin);
                },
            },
            None => {
                assert(builtin + custom_rules(self@) =~= builtin);
            },
        }
        known
    }
}

/// The definition of a rule that takes away every entry of a mapping that is
/// named `key`.
pub open spec fn key_redaction_rule(key: Seq<char>) -> JsonView {
    JsonView::Object(
        seq![
            ("type"@, JsonView::String("redact-pair"@)),
            ("keyPattern"@, JsonView::String(key)),
        ],
    )
}

/// Whether `definition` is that rule, its two entries in either order.
pub open spec fn defines_key_redaction(definition: JsonView, key: Seq<char>) -> bool {
    definition == key_redaction_rule(key) || definition == JsonView::Object(
        seq![
            ("keyPattern"@, JsonView::String(key)),
            ("type"@, JsonView::String("redact-pair"@)),
        ],
    )
}

/// The entries of `rules`: none where the section is missing, and an error
/// where it is no mapping.
pub open spec fn rules_of(config: Entries) -> Result<
    Entries,
    ConfigError,
> {
    match get(config, rules_key()) {
        None => Ok(Seq::empty()),
        Some(JsonView::Object(rules)) => Ok(rules),
        Some(_) => Err(ConfigError::BadRules),
    }
}

/// The configuration once it defines, under `name`, the rule that takes away
/// the entries named `key`.
pub open spec fn with_key_rule_defined(
    config: Entries,
    name: Seq<char>,
    key: Seq<char>,
) -> Result<Entries, ConfigError> {
    match rules_of(config) {
        Err(error) => Err(error),
        Ok(rules) => Ok(
            put(config, rules_key(), JsonView::Object(put(rules, name, key_redaction_rule(key)))),
        ),
    }
}

/// Defining the rule for a key keeps a well-formed configuration well formed.
pub proof fn lemma_key_rule_keeps_well_formed(config: Entries, name: Seq<char>, key: Seq<char>)
    requires
        is_well_formed(config),
    ensures
        with_key_rule_defined(config, name, key) matches Ok(defined) ==> is_well_formed(defined),
{
    lemma_sections_differ();
    if rules_of(config) is Ok {
        let rules = rules_of(config)->Ok_0;
        assert(distinct_keys(rules));
        let edited = put(rules, name, key_redaction_rule(key));
        let defined = put(config, rules_key(), JsonView::Object(edited));
        lemma_put_keeps_keys_distinct(rules, name, key_redaction_rule(key));
        lemma_put_keeps_keys_distinct(config, rules_key(), JsonView::Object(edited));
        lemma_get_after_put(config, rules_key(), JsonView::Object(edited));
        lemma_get_other_after_put(
            config,
            rules_key(),
            JsonView::Object(edited),
            applications_key(),
        );
        assert(is_well_formed(defined));
    }
}

/// Enters `value` under `key`: in the place of what was entered under that
/// name, or behind all other entries where nothing was.
fn put_entry(entries: &mut Vec<(String, Json)>, key: String, value: Json)
    ensures
        entries_view(final(entries)@) == put(entries_view(old(entries)@), key@, value@),
{
    let ghost before = entries_view(entries@);
    let ghost name = key@;
    let ghost held = value@;
    match find_key(entries, &key) {
        Some(at) => {
            entries.set(at, (key, value));
            assert(entries_view(entries@) =~= before.update(at as int, (name, held)));
        },
        None => {
            entries.push((key, value));
            assert(entries_view(entries@) =~= before.push((name, held)));
        },
    }
}

/// Whether `entry` holds the text `text` under the name `name`.
fn is_text_entry(entry: &(String, Json), name: &str, text: &str) -> (holds: bool)
    ensures
        holds == (entry.0@ == name@ && entry.1@ == JsonView::String(text@)),
{
    match &entry.1 {
        Json::String(held) => same_text(name, &entry.0) && same_text(text, held),
        _ => false,
    }
}

/// The definition of the rule that takes away the entries named `key`.
fn key_redaction_definition(key: String) -> (definition: Json)
    ensures
        definition@ == key_redaction_rule(key@),
{
    let ghost name = key@;
    let mut entries: Vec<(String, Json)> = Vec::new();
    entries.push(("type".to_owned(), Json::String("redact-pair".to_owned())));
    entries.push(("keyPattern".to_owned(), Json::String(key)));
    proof {
        lemma_object_view(entries);
        assert(entries_view(entries@) =~= seq![
            ("type"@, JsonView::String("redact-pair"@)),
            ("keyPattern"@, JsonView::String(name)),
        ]);
    }
    Json::Object(entries)
}

/// Whether `definition` is the rule that takes away the entries named `key`.
fn is_key_redaction_definition(definition: &Json, key: &String) -> (same: bool)
    ensures
        same == defines_key_redaction(definition@, key@),
{
    match definition {
        Json::Object(entries) => {
            proof {
                lemma_object_view(*entries);
            }
            let ghost held = entries_view(entries@);
            let ghost forward = seq![
                ("type"@, JsonView::String("redact-pair"@)),
                ("keyPattern"@, JsonView::String(key@)),
            ];
            let ghost backward = seq![
                ("keyPattern"@, JsonView::String(key@)),
                ("type"@, JsonView::String("redact-pair"@)),
            ];
            if entries.len() != 2 {
                assert(held.len() != forward.len());
                assert(held.len() != backward.len());
                false
            } else {
                let pattern: &str = key.as_str();
                let in_order: bool = is_text_entry(&entries[0], "type", "redact-pair")
                    && is_text_entry(&entries[1], "keyPattern", pattern);
                let reversed: bool = is_text_entry(&entries[0], "keyPattern", pattern)
                    && is_text_entry(&entries[1], "type", "redact-pair");
                proof {
                    assert(held[0] == (entries@[0].0@, entries@[0].1@));
                    assert(held[1] == (entries@[1].0@, entries@[1].1@));
                    if in_order {
                        assert(held =~= forward);
                    } else {
                        assert(held != forward) by {
                            if held == forward {
                                assert(held[0] == forward[0]);
                                assert(held[1] == forward[1]);
                            }
                        }
                    }
                    if reversed {
                        assert(held =~= backward);
                    } else {
                        assert(held != backward) by {
                            if held == backward {
                                assert(held[0] == backward[0]);
                                assert(held[1] == backward[1]);
                            }
                        }
                    }
                }
                in_order || reversed
            }
        },
        _ => false,
    }
}

impl PiiConfig {
    /// Defines, under `rule_name`, the rule that takes away every entry of a
    /// mapping that is named `key_pattern`. A definition that stood under
    /// that name gives way to it. A `rules` section of the wrong shape is an
    /// error, and leaves the configuration as it was.
    pub fn define_key_redaction_rule(&mut self, rule_name: &str, key_pattern: &str) -> (outcome:
        Result<(), ConfigError>)
        ensures
            match with_key_rule_defined(old(self)@, rule_name@, key_pattern@) {
                Ok(edited) => outcome is Ok && final(self)@ == edited,
                Err(error) => outcome == Err::<(), ConfigError>(error)
                    && final(self)@ == old(self)@,
            },
            is_well_formed(old(self)@) ==> is_well_formed(final(self)@),
    {
        let ghost before = self@;
        proof {
            if is_well_formed(before) {
                lemma_key_rule_keeps_well_formed(before, rule_name@, key_pattern@);
            }
        }
        let section: String = "rules".to_owned();
        let at: usize = match find_key(&self.0, &section) {
            Some(at) => at,
            None => {
                let fresh: Vec<(String, Json)> = Vec::new();
                proof {
                    lemma_object_view(fresh);
                    assert(entries_view(fresh@) =~= Seq::<(Seq<char>, JsonView)>::empty());
                }
                self.0.push((section, Json::Object(fresh)));
                proof {
                    assert(self@ =~= before.push((rules_key(), JsonView::Object(Seq::empty()))));
                }
                self.0.len() - 1
            },
        };
        proof {
            lemma_key_index(before, rules_key());
        }
        let ghost entered = self@;
        let ghost edited: Entries;
        match &mut self.0[at].1 {
            Json::Object(rules) => {
                proof {
                    lemma_object_view(*rules);
                }
                let definition: Json = key_redaction_definition(key_pattern.to_owned());
                put_entry(rules, rule_name.to_owned(), definition);
                proof {
                    lemma_object_view(*rules);
                    edited = entries_view(rules@);
                }
            },
            _ => {
                assert(self@ =~= before);
                return Err(ConfigError::BadRules);
            },
        };
        assert(self@ =~= entered.update(at as int, (rules_key(), JsonView::Object(edited))));
        assert(self@ == with_key_rule_defined(before, rule_name@, key_pattern@)->Ok_0);
        Ok(())
    }
}

/// What every name of a rule made for a key begins with.
pub open spec fn rule_name_prefix() -> Seq<char> {
    "remove_"@
}

/// `count` times the character that pads such a name.
pub open spec fn padding(count: nat) -> Seq<char> {
    Seq::new(count, |i: int| '_')
}

/// The name made for `key` with `count` characters of padding behind it.
pub open spec fn padded_rule_name(key: Seq<char>, count: nat) -> Seq<char> {
    rule_name_prefix() + key + padding(count)
}

/// Whether `name` is taken: `rules` define something under it that is not
/// the rule that takes away the entries named `key`.
pub open spec fn is_taken(rules: Entries, key: Seq<char>, name: Seq<char>) -> bool {
    match get(rules, name) {
        Some(definition) => !defines_key_redaction(definition, key),
        None => false,
    }
}

/// The length of the longest name under which something is entered.
pub open spec fn longest_key(entries: Entries) -> nat
    decreases entries.len(),
{
    if entries.len() == 0 {
        0
    } else if entries.last().0.len() > longest_key(entries.drop_last()) {
        entries.last().0.len()
    } else {
        longest_key(entries.drop_last())
    }
}

/// No name is longer than the longest.
pub proof fn lemma_longest_key(entries: Entries, i: int)
    requires
        0 <= i < entries.len(),
    ensures
        entries[i].0.len() <= longest_key(entries),
    decreases entries.len(),
{
    if i < entries.len() - 1 {
        lemma_longest_key(entries.drop_last(), i);
    }
}

/// A name that is taken has no more padding than the longest name is long.
pub proof fn lemma_taken_is_short(rules: Entries, key: Seq<char>, count: nat)
    requires
        is_taken(rules, key, padded_rule_name(key, count)),
    ensures
        count <= longest_key(rules),
{
    let name = padded_rule_name(key, count);
    lemma_key_index(rules, name);
    lemma_longest_key(rules, key_index(rules, name).unwrap());
}

/// The least padding, from `count` on, with which the name made for `key` is
/// not taken.
pub open spec fn free_padding(rules: Entries, key: Seq<char>, count: nat) -> nat
    decreases longest_key(rules) + 1 - count,
{
    if is_taken(rules, key, padded_rule_name(key, count)) {
        proof {
            lemma_taken_is_short(rules, key, count);
        }
        free_padding(rules, key, count + 1)
    } else {
        count
    }
}

/// The name of the rule that takes away the entries named `key`: the prefix,
/// the key, and the least padding with which the configuration defines
/// nothing else under the name.
pub open spec fn key_rule_name(config: Entries, key: Seq<char>) -> Seq<char> {
    padded_rule_name(key, free_padding(defined_rules(config), key, 0))
}

/// Whether `rules` define under `name` something that is not the rule that
/// takes away the entries named `key`.
fn is_taken_name(rules: &Vec<(String, Json)>, key: &String, name: &String) -> (taken: bool)
    ensures
        taken == is_taken(entries_view(rules@), key@, name@),
{
    match find_key(rules, name) {
        Some(at) => !is_key_redaction_definition(&rules[at].1, key),
        None => false,
    }
}

/// The name made for `key` with the least padding with which it is not taken
/// among `rules`.
fn free_rule_name(rules: &Vec<(String, Json)>, key: &String) -> (name: String)
    ensures
        name@ == padded_rule_name(key@, free_padding(entries_view(rules@), key@, 0)),
{
    let ghost defined = entries_view(rules@);
    let mut name: String = "remove_".to_owned();
    name.append(key.as_str());
    let ghost mut count: nat = 0;
    assert(name@ =~= padded_rule_name(key@, 0));
    while is_taken_name(rules, key, &name)
        invariant
            defined == entries_view(rules@),
            name@ == padded_rule_name(key@, count),
            free_padding(defined, key@, 0) == free_padding(defined, key@, count),
        decreases longest_key(defined) + 1 - count,
    {
        proof {
            lemma_taken_is_short(defined, key@, count);
            reveal_strlit("_");
            assert(padding(count + 1) =~= padding(count) + "_"@);
        }
        name.append("_");
        proof {
            count = count + 1;
            assert(name@ =~= padded_rule_name(key@, count));
        }
    }
    name
}

impl PiiConfig {
    /// The name under which to define the rule that takes away the entries
    /// named `key_name`. It is made of a fixed prefix and the key; where the
    /// configuration defines another rule under that name, characters of
    /// padding follow, as few as it takes to find a name that is free or
    /// already stands for this very rule.
    pub fn key_rule_name(&self, key_name: &str) -> (name: String)
        ensures
            name@ == key_rule_name(self@, key_name@),
    {
        let key: String = key_name.to_owned();
        let section: String = "rules".to_owned();
        proof {
            lemma_key_index(self@, rules_key());
        }
        match find_key(&self.0, &section) {
            Some(at) => match &self.0[at].1 {
                Json::Object(rules) => {
                    proof {
                        lemma_object_view(*rules);
                    }
                    free_rule_name(rules, &key)
                },
                _ => {
                    let none: Vec<(String, Json)> = Vec::new();
                    assert(entries_view(none@) =~= Seq::<(Seq<char>, JsonView)>::empty());
                    free_rule_name(&none, &key)
                },
            },
            None => {
                let none: Vec<(String, Json)> = Vec::new();
                assert(entries_view(none@) =~= Seq::<(Seq<char>, JsonView)>::empty());
                free_rule_name(&none, &key)
            },
        }
    }
}

impl PiiConfig {
    /// This configuration with `rule` applied to the content of kind
    /// `pii_kind`, and whether that makes a difference. This configuration
    /// itself stays as it is.
    pub fn with_rule_added(&self, pii_kind: &str, rule: &str) -> (outcome: Result<
        (PiiConfig, bool),
        ConfigError,
    >)
        ensures
            match with_rule_added(self@, pii_kind@, rule@) {
                Ok((edited, changed)) => outcome matches Ok((config, differs)) && config@ == edited
                    && differs == changed,
                Err(error) => outcome matches Err(met) && met == error,
            },
            self.well_formed() ==> (outcome matches Ok((config, _)) ==> config.well_formed()),
    {
        let mut edited: PiiConfig = self.clone();
        match edited.add_rule(pii_kind, rule) {
            Ok(changed) => Ok((edited, changed)),
            Err(error) => Err(error),
        }
    }

    /// This configuration with `rule` no longer applied to the content of
    /// kind `pii_kind`, and whether that makes a difference. This
    /// configuration itself stays as it is.
    pub fn with_rule_removed(&self, pii_kind: &str, rule: &str) -> (outcome: Result<
        (PiiConfig, bool),
        ConfigError,
    >)
        ensures
            match with_rule_removed(self@, pii_kind@, rule@) {
                Ok((edited, changed)) => outcome matches Ok((config, differs)) && config@ == edited
                    && differs == changed,
                Err(error) => outcome matches Err(met) && met == error,
            },
            self.well_formed() ==> (outcome matches Ok((config, _)) ==> config.well_formed()),
    {
        let mut edited: PiiConfig = self.clone();
        match edited.remove_rule(pii_kind, rule) {
            Ok(changed) => Ok((edited, changed)),
            Err(error) => Err(error),
        }
    }

    /// This configuration with the rule defined, under `rule_name`, that
    /// takes away every entry of a mapping that is named `key_pattern`. This
    /// configuration itself stays as it is.
    pub fn with_key_rule_defined(&self, rule_name: &str, key_pattern: &str) -> (outcome: Result<
        PiiConfig,
        ConfigError,
    >)
        ensures
            match with_key_rule_defined(self@, rule_name@, key_pattern@) {
                Ok(edited) => outcome matches Ok(config) && config@ == edited,
                Err(error) => outcome matches Err(met) && met == error,
            },
            self.well_formed() ==> (outcome matches Ok(config) ==> config.well_formed()),
    {
        let mut edited: PiiConfig = self.clone();
        match edited.define_key_redaction_rule(rule_name, key_pattern) {
            Ok(_) => Ok(edited),
            Err(error) => Err(error),
        }
    }
}

/// Whether `answer` is what came of asking `engine` to redact with `config`:
/// the engine's error, or its result without its own notes.
pub open spec fn is_answer_of<F: Fn(&PiiConfig) -> Result<StrippedEvent, String>>(
    engine: F,
    config: PiiConfig,
    answer: Result<StrippedEvent, String>,
) -> bool {
    exists|raw: Result<StrippedEvent, String>|
        #[trigger] call_ensures(engine, (&config,), raw) && match raw {
            Ok(result) => answer matches Ok(stripped) && is_without_sidecar(result, stripped),
            Err(message) => answer matches Err(given) && given == message,
        }
}

impl PiiConfig {
    /// Asks `engine` to redact its event with this configuration. Hands back
    /// what the engine answers: its error, or its result, out of which the
    /// engine's own notes at the top are taken.
    pub fn strip_event<F: Fn(&PiiConfig) -> Result<StrippedEvent, String>>(
        &self,
        engine: &F,
    ) -> (answer: Result<StrippedEvent, String>)
        requires
            call_requires(*engine, (self,)),
        ensures
            is_answer_of(*engine, *self, answer),
    {
        match engine(self) {
            Ok(result) => Ok(strip_sidecar(result)),
            Err(message) => Err(message),
        }
    }
}

} // verus!
