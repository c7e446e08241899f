//! Rule registration: each pseudo selector's name, textual pattern,
//! priority, declared parameter slots and matcher family, pushed into the
//! rule table the outer query engine dispatches on.

use vstd::prelude::*;

verus! {

/// The priority every pseudo-selector rule registers with.
pub const PRIORITY_PSEUDO_SELECTOR: u32 = 10;

/// The parameter slots a rule's textual pattern declares.
#[derive(Clone, Copy, Debug, PartialEq, Eq, Structural)]
pub enum ParamSlots {
    NoParams,
    Nth,
    Selector,
    Regexp,
}

/// Which matcher family a rule's builder constructs. `Not` and `Contains`
/// delegate to the outer engine's negation and free-text search; `Alias`
/// rewrites the selector into simpler ones. None of the three carries a
/// structural algorithm of its own.
#[derive(Clone, Copy, Debug, PartialEq, Eq, Structural)]
pub enum RuleKind {
    Empty,
    NthChild { asc: bool },
    FirstOrLastChild { asc: bool },
    NthOfType { asc: bool },
    FirstOrLastOfType { asc: bool },
    OnlyChild,
    OnlyOfType,
    Not,
    Contains,
    Alias,
}

/// One registered rule definition.
pub struct RuleItem {
    pub name: &'static str,
    pub pattern: &'static str,
    pub priority: u32,
    pub params: ParamSlots,
    pub kind: RuleKind,
    pub alias: Option<&'static str>,
}

pub open spec fn is_empty_rule(r: RuleItem) -> bool {
    &&& r.name@ == ":empty"@
    &&& r.pattern@ == ":empty"@
    &&& r.priority == PRIORITY_PSEUDO_SELECTOR
    &&& r.params == ParamSlots::NoParams
    &&& r.kind == RuleKind::Empty
    &&& r.alias.is_none()
}

pub open spec fn is_first_child_rule(r: RuleItem) -> bool {
    &&& r.name@ == ":first-child"@
    &&& r.pattern@ == ":first-child"@
    &&& r.priority == PRIORITY_PSEUDO_SELECTOR
    &&& r.params == ParamSlots::NoParams
    &&& r.kind == (RuleKind::FirstOrLastChild { asc: true })
    &&& r.alias.is_none()
}

pub open spec fn is_last_child_rule(r: RuleItem) -> bool {
    &&& r.name@ == ":last-child"@
    &&& r.pattern@ == ":last-child"@
    &&& r.priority == PRIORITY_PSEUDO_SELECTOR
    &&& r.params == ParamSlots::NoParams
    &&& r.kind == (RuleKind::FirstOrLastChild { asc: false })
    &&& r.alias.is_none()
}

pub open spec fn is_only_child_rule(r: RuleItem) -> bool {
    &&& r.name@ == ":only-child"@
    &&& r.pattern@ == ":only-child"@
    &&& r.priority == PRIORITY_PSEUDO_SELECTOR
    &&& r.params == ParamSlots::NoParams
    &&& r.kind == RuleKind::OnlyChild
    &&& r.alias.is_none()
}

pub open spec fn is_nth_child_rule(r: RuleItem) -> bool {
    &&& r.name@ == ":nth-child({spaces}{nth}{spaces})"@
    &&& r.pattern@ == ":nth-child({spaces}{nth}{spaces})"@
    &&& r.priority == PRIORITY_PSEUDO_SELECTOR
    &&& r.params == ParamSlots::Nth
    &&& r.kind == (RuleKind::NthChild { asc: true })
    &&& r.alias.is_none()
}

pub open spec fn is_nth_last_child_rule(r: RuleItem) -> bool {
    &&& r.name@ == ":nth-last-child({spaces}{nth}{spaces})"@
    &&& r.pattern@ == ":nth-last-child({spaces}{nth}{spaces})"@
    &&& r.priority == PRIORITY_PSEUDO_SELECTOR
    &&& r.params == ParamSlots::Nth
    &&& r.kind == (RuleKind::NthChild { asc: false })
    &&& r.alias.is_none()
}

pub open spec fn is_first_of_type_rule(r: RuleItem) -> bool {
    &&& r.name@ == ":first-of-type"@
    &&& r.pattern@ == ":first-of-type"@
    &&& r.priority == PRIORITY_PSEUDO_SELECTOR
    &&& r.params == ParamSlots::Nth
    &&& r.kind == (RuleKind::FirstOrLastOfType { asc: true })
    &&& r.alias.is_none()
}

pub open spec fn is_last_of_type_rule(r: RuleItem) -> bool {
    &&& r.name@ == ":last-of-type"@
    &&& r.pattern@ == ":last-of-type"@
    &&& r.priority == PRIORITY_PSEUDO_SELECTOR
    &&& r.params == ParamSlots::Nth
    &&& r.kind == (RuleKind::FirstOrLastOfType { asc: false })
    &&& r.alias.is_none()
}

pub open spec fn is_nth_of_type_rule(r: RuleItem) -> bool {
    &&& r.name@ == ":nth-of-type({spaces}{nth}{spaces})"@
    &&& r.pattern@ == ":nth-of-type({spaces}{nth}{spaces})"@
    &&& r.priority == PRIORITY_PSEUDO_SELECTOR
    &&& r.params == ParamSlots::Nth
    &&& r.kind == (RuleKind::NthOfType { asc: true })
    &&& r.alias.is_none()
}

pub open spec fn is_nth_last_of_type_rule(r: RuleItem) -> bool {
    &&& r.name@ == ":nth-last-of-type({spaces}{nth}{spaces})"@
    &&& r.pattern@ == ":nth-last-of-type({spaces}{nth}{spaces})"@
    &&& r.priority == PRIORITY_PSEUDO_SELECTOR
    &&& r.params == ParamSlots::Nth
    &&& r.kind == (RuleKind::NthOfType { asc: false })
    &&& r.alias.is_none()
}

pub open spec fn is_only_of_type_rule(r: RuleItem) -> bool {
    &&& r.name@ == ":only-of-type"@
    &&& r.pattern@ == ":only-of-type"@
    &&& r.priority == PRIORITY_PSEUDO_SELECTOR
    &&& r.params == ParamSlots::NoParams
    &&& r.kind == RuleKind::OnlyOfType
    &&& r.alias.is_none()
}

pub open spec fn is_not_rule(r: RuleItem) -> bool {
    &&& r.name@ == ":not"@
    &&& r.pattern@ == ":not({spaces}{selector}{spaces})"@
    &&& r.priority == PRIORITY_PSEUDO_SELECTOR
    &&& r.params == ParamSlots::Selector
    &&& r.kind == RuleKind::Not
    &&& r.alias.is_none()
}

pub open spec fn is_contains_rule(r: RuleItem) -> bool {
    &&& r.name@ == ":contains"@
    &&& r.priority == PRIORITY_PSEUDO_SELECTOR
    &&& r.params == ParamSlots::Regexp
    &&& r.kind == RuleKind::Contains
    &&& r.alias.is_none()
}

pub open spec fn is_header_rule(r: RuleItem) -> bool {
    &&& r.name@ == ":header"@
    &&& r.pattern@ == ":header"@
    &&& r.priority == PRIORITY_PSEUDO_SELECTOR
    &&& r.params == ParamSlots::NoParams
    &&& r.kind == RuleKind::Alias
    &&& r.alias.is_some()
    &&& r.alias.unwrap()@ == "h1,h2,h3,h4,h5,h6"@
}

pub open spec fn is_input_rule(r: RuleItem) -> bool {
    &&& r.name@ == ":input"@
    &&& r.pattern@ == ":input"@
    &&& r.priority == PRIORITY_PSEUDO_SELECTOR
    &&& r.params == ParamSlots::NoParams
    &&& r.kind == RuleKind::Alias
    &&& r.alias.is_some()
    &&& r.alias.unwrap()@ == "input,select,textarea,button"@
}

pub open spec fn is_submit_rule(r: RuleItem) -> bool {
    &&& r.name@ == ":submit"@
    &&& r.pattern@ == ":submit"@
    &&& r.priority == PRIORITY_PSEUDO_SELECTOR
    &&& r.params == ParamSlots::NoParams
    &&& r.kind == RuleKind::Alias
    &&& r.alias.is_some()
    &&& r.alias.unwrap()@ == "input[type='submit'],button[type='submit']"@
}

/// One call appends one rule: the table keeps what it held and gains the
/// new definition at the end.
pub open spec fn pushed_one(old_rules: Seq<RuleItem>, new_rules: Seq<RuleItem>) -> bool {
    new_rules.len() == old_rules.len() + 1 && new_rules.drop_last() == old_rules
}

/// Builds the rule definition for `nth-child` or `nth-last-child`.
pub fn make_asc_or_desc_nth_child(selector: &'static str, asc: bool) -> (r: RuleItem)
    ensures
        r.name == selector,
        r.pattern == selector,
        r.priority == PRIORITY_PSEUDO_SELECTOR,
        r.params == ParamSlots::Nth,
        r.kind == (RuleKind::NthChild { asc }),
        r.alias.is_none(),
{
    RuleItem {
        name: selector,
        pattern: selector,
        priority: PRIORITY_PSEUDO_SELECTOR,
        params: ParamSlots::Nth,
        kind: RuleKind::NthChild { asc },
        alias: None,
    }
}

/// Builds the rule definition for `first-child` or `last-child`.
pub fn make_first_or_last_child(selector: &'static str, asc: bool) -> (r: RuleItem)
    ensures
        r.name == selector,
        r.pattern == selector,
        r.priority == PRIORITY_PSEUDO_SELECTOR,
        r.params == ParamSlots::NoParams,
        r.kind == (RuleKind::FirstOrLastChild { asc }),
        r.alias.is_none(),
{
    RuleItem {
        name: selector,
        pattern: selector,
        priority: PRIORITY_PSEUDO_SELECTOR,
        params: ParamSlots::NoParams,
        kind: RuleKind::FirstOrLastChild { asc },
        alias: None,
    }
}

/// Builds the rule definition for `nth-of-type` or `nth-last-of-type`.
pub fn make_asc_or_desc_nth_of_type(selector: &'static str, asc: bool) -> (r: RuleItem)
    ensures
        r.name == selector,
        r.pattern == selector,
        r.priority == PRIORITY_PSEUDO_SELECTOR,
        r.params == ParamSlots::Nth,
        r.kind == (RuleKind::NthOfType { asc }),
        r.alias.is_none(),
{
    RuleItem {
        name: selector,
        pattern: selector,
        priority: PRIORITY_PSEUDO_SELECTOR,
        params: ParamSlots::Nth,
        kind: RuleKind::NthOfType { asc },
        alias: None,
    }
}

/// Builds the rule definition for `first-of-type` or `last-of-type`.
pub fn make_first_or_last_of_type(selector: &'static str, asc: bool) -> (r: RuleItem)
    ensures
        r.name == selector,
        r.pattern == selector,
        r.priority == PRIORITY_PSEUDO_SELECTOR,
        r.params == ParamSlots::Nth,
        r.kind == (RuleKind::FirstOrLastOfType { asc }),
        r.alias.is_none(),
{
    RuleItem {
        name: selector,
        pattern: selector,
        priority: PRIORITY_PSEUDO_SELECTOR,
        params: ParamSlots::Nth,
        kind: RuleKind::FirstOrLastOfType { asc },
        alias: None,
    }
}

/// Registers the pseudo selector `:empty`.
pub fn pseudo_empty(rules: &mut Vec<RuleItem>)
    ensures
        pushed_one(old(rules)@, final(rules)@),
        is_empty_rule(final(rules)@.last()),
{
    let rule = RuleItem {
        name: ":empty",
        pattern: ":empty",
        priority: PRIORITY_PSEUDO_SELECTOR,
        params: ParamSlots::NoParams,
        kind: RuleKind::Empty,
        alias: None,
    };
    rules.push(rule);
    proof {
        assert(rules@.drop_last() =~= old(rules)@);
    }
}

/// Registers the pseudo selector `:first-child`.
pub fn pseudo_first_child(rules: &mut Vec<RuleItem>)
    ensures
        pushed_one(old(rules)@, final(rules)@),
        is_first_child_rule(final(rules)@.last()),
{
    let rule = make_first_or_last_child(":first-child", true);
    rules.push(rule);
    proof {
        assert(rules@.drop_last() =~= old(rules)@);
    }
}

/// Registers the pseudo selector `:last-child`, the alias of
/// `:nth-last-child(1)`.
pub fn pseudo_last_child(rules: &mut Vec<RuleItem>)
    ensures
        pushed_one(old(rules)@, final(rules)@),
        is_last_child_rule(final(rules)@.last()),
{
    let rule = make_first_or_last_child(":last-child", false);
    rules.push(rule);
    proof {
        assert(rules@.drop_last() =~= old(rules)@);
    }
}

/// Registers the pseudo selector `:only-child`.
pub fn pseudo_only_child(rules: &mut Vec<RuleItem>)
    ensures
        pushed_one(old(rules)@, final(rules)@),
        is_only_child_rule(final(rules)@.last()),
{
    let rule = RuleItem {
        name: ":only-child",
        pattern: ":only-child",
        priority: PRIORITY_PSEUDO_SELECTOR,
        params: ParamSlots::NoParams,
        kind: RuleKind::OnlyChild,
        alias: None,
    };
    rules.push(rule);
    proof {
        assert(rules@.drop_last() =~= old(rules)@);
    }
}

/// Registers the pseudo selector `:nth-child`.
pub fn pseudo_nth_child(rules: &mut Vec<RuleItem>)
    ensures
        pushed_one(old(rules)@, final(rules)@),
        is_nth_child_rule(final(rules)@.last()),
{
    let rule = make_asc_or_desc_nth_child(":nth-child({spaces}{nth}{spaces})", true);
    rules.push(rule);
    proof {
        assert(rules@.drop_last() =~= old(rules)@);
    }
}

/// Registers the pseudo selector `:nth-last-child`.
pub fn pseudo_nth_last_child(rules: &mut Vec<RuleItem>)
    ensures
        pushed_one(old(rules)@, final(rules)@),
        is_nth_last_child_rule(final(rules)@.last()),
{
    let rule = make_asc_or_desc_nth_child(":nth-last-child({spaces}{nth}{spaces})", false);
    rules.push(rule);
    proof {
        assert(rules@.drop_last() =~= old(rules)@);
    }
}

/// Registers the pseudo selector `:first-of-type`, the alias of
/// `:nth-of-type(1)`.
pub fn pseudo_first_of_type(rules: &mut Vec<RuleItem>)
    ensures
        pushed_one(old(rules)@, final(rules)@),
        is_first_of_type_rule(final(rules)@.last()),
{
    let rule = make_first_or_last_of_type(":first-of-type", true);
    rules.push(rule);
    proof {
        assert(rules@.drop_last() =~= old(rules)@);
    }
}

/// Registers the pseudo selector `:last-of-type`, the alias of
/// `:nth-last-of-type(1)`.
pub fn pseudo_last_of_type(rules: &mut Vec<RuleItem>)
    ensures
        pushed_one(old(rules)@, final(rules)@),
        is_last_of_type_rule(final(rules)@.last()),
{
    let rule = make_first_or_last_of_type(":last-of-type", false);
    rules.push(rule);
    proof {
        assert(rules@.drop_last() =~= old(rules)@);
    }
}

/// Registers the pseudo selector `:nth-of-type`.
pub fn pseudo_nth_of_type(rules: &mut Vec<RuleItem>)
    ensures
        pushed_one(old(rules)@, final(rules)@),
        is_nth_of_type_rule(final(rules)@.last()),
{
    let rule = make_asc_or_desc_nth_of_type(":nth-of-type({spaces}{nth}{spaces})", true);
    rules.push(rule);
    proof {
        assert(rules@.drop_last() =~= old(rules)@);
    }
}

/// Registers the pseudo selector `:nth-last-of-type`.
pub fn pseudo_nth_last_of_type(rules: &mut Vec<RuleItem>)
    ensures
        pushed_one(old(rules)@, final(rules)@),
        is_nth_last_of_type_rule(final(rules)@.last()),
{
    let rule = make_asc_or_desc_nth_of_type(":nth-last-of-type({spaces}{nth}{spaces})", false);
    rules.push(rule);
    proof {
        assert(rules@.drop_last() =~= old(rules)@);
    }
}

/// Registers the pseudo selector `:only-of-type`.
pub fn pseudo_only_of_type(rules: &mut Vec<RuleItem>)
    ensures
        pushed_one(old(rules)@, final(rules)@),
        is_only_of_type_rule(final(rules)@.last()),
{
    let rule = RuleItem {
        name: ":only-of-type",
        pattern: ":only-of-type",
        priority: PRIORITY_PSEUDO_SELECTOR,
        params: ParamSlots::NoParams,
        kind: RuleKind::OnlyOfType,
        alias: None,
    };
    rules.push(rule);
    proof {
        assert(rules@.drop_last() =~= old(rules)@);
    }
}

/// Registers the pseudo selector `:not`; matching delegates to the outer
/// engine's negation.
pub fn pseudo_not(rules: &mut Vec<RuleItem>)
    ensures
        pushed_one(old(rules)@, final(rules)@),
        is_not_rule(final(rules)@.last()),
{
    let rule = RuleItem {
        name: ":not",
        pattern: ":not({spaces}{selector}{spaces})",
        priority: PRIORITY_PSEUDO_SELECTOR,
        params: ParamSlots::Selector,
        kind: RuleKind::Not,
        alias: None,
    };
    rules.push(rule);
    proof {
        assert(rules@.drop_last() =~= old(rules)@);
    }
}

/// Registers the pseudo selector `:contains`; matching delegates to the
/// outer engine's free-text search.
pub fn pseudo_contains(rules: &mut Vec<RuleItem>)
    ensures
        pushed_one(old(rules)@, final(rules)@),
        is_contains_rule(final(rules)@.last()),
{
    let rule = RuleItem {
        name: ":contains",
        pattern: ":contains({spaces}{regexp#(?:'((?:\\\\?+.)*?)'|\"((?:\\\\?+.)*?)\"|([^\\s'\"<>/=`]*))#}{spaces})",
        priority: PRIORITY_PSEUDO_SELECTOR,
        params: ParamSlots::Regexp,
        kind: RuleKind::Contains,
        alias: None,
    };
    rules.push(rule);
    proof {
        assert(rules@.drop_last() =~= old(rules)@);
    }
}

/// Registers the pseudo selector `:header`, an alias for the heading tags.
pub fn pseudo_alias_header(rules: &mut Vec<RuleItem>)
    ensures
        pushed_one(old(rules)@, final(rules)@),
        is_header_rule(final(rules)@.last()),
{
    let rule = RuleItem {
        name: ":header",
        pattern: ":header",
        priority: PRIORITY_PSEUDO_SELECTOR,
        params: ParamSlots::NoParams,
        kind: RuleKind::Alias,
        alias: Some("h1,h2,h3,h4,h5,h6"),
    };
    rules.push(rule);
    proof {
        assert(rules@.drop_last() =~= old(rules)@);
    }
}

/// Registers the pseudo selector `:input`, an alias for the form controls.
pub fn pseudo_alias_input(rules: &mut Vec<RuleItem>)
    ensures
        pushed_one(old(rules)@, final(rules)@),
        is_input_rule(final(rules)@.last()),
{
    let rule = RuleItem {
        name: ":input",
        pattern: ":input",
        priority: PRIORITY_PSEUDO_SELECTOR,
        params: ParamSlots::NoParams,
        kind: RuleKind::Alias,
        alias: Some("input,select,textarea,button"),
    };
    rules.push(rule);
    proof {
        assert(rules@.drop_last() =~= old(rules)@);
    }
}

/// Registers the pseudo selector `:submit`, an alias for submit controls.
pub fn pseudo_alias_submit(rules: &mut Vec<RuleItem>)
    ensures
        pushed_one(old(rules)@, final(rules)@),
        is_submit_rule(final(rules)@.last()),
{
    let rule = RuleItem {
        name: ":submit",
        pattern: ":submit",
        priority: PRIORITY_PSEUDO_SELECTOR,
        params: ParamSlots::NoParams,
        kind: RuleKind::Alias,
        alias: Some("input[type='submit'],button[type='submit']"),
    };
    rules.push(rule);
    proof {
        assert(rules@.drop_last() =~= old(rules)@);
    }
}

/// Registers every pseudo-selector rule, in order, after whatever the table
/// already held.
pub fn init(rules: &mut Vec<RuleItem>)
    ensures
        final(rules)@.len() == old(rules)@.len() + 16,
        final(rules)@.subrange(0, old(rules)@.len() as int) == old(rules)@,
        is_empty_rule(final(rules)@[old(rules)@.len() as int + 0]),
        is_first_child_rule(final(rules)@[old(rules)@.len() as int + 1]),
        is_last_child_rule(final(rules)@[old(rules)@.len() as int + 2]),
        is_only_child_rule(final(rules)@[old(rules)@.len() as int + 3]),
        is_nth_child_rule(final(rules)@[old(rules)@.len() as int + 4]),
        is_nth_last_child_rule(final(rules)@[old(rules)@.len() as int + 5]),
        is_first_of_type_rule(final(rules)@[old(rules)@.len() as int + 6]),
        is_last_of_type_rule(final(rules)@[old(rules)@.len() as int + 7]),
        is_nth_of_type_rule(final(rules)@[old(rules)@.len() as int + 8]),
        is_nth_last_of_type_rule(final(rules)@[old(rules)@.len() as int + 9]),
        is_only_of_type_rule(final(rules)@[old(rules)@.len() as int + 10]),
        is_not_rule(final(rules)@[old(rules)@.len() as int + 11]),
        is_contains_rule(final(rules)@[old(rules)@.len() as int + 12]),
        is_header_rule(final(rules)@[old(rules)@.len() as int + 13]),
        is_input_rule(final(rules)@[old(rules)@.len() as int + 14]),
        is_submit_rule(final(rules)@[old(rules)@.len() as int + 15]),
{
    pseudo_empty(rules);
    pseudo_first_child(rules);
    pseudo_last_child(rules);
    pseudo_only_child(rules);
    pseudo_nth_child(rules);
    pseudo_nth_last_child(rules);
    pseudo_first_of_type(rules);
    pseudo_last_of_type(rules);
    pseudo_nth_of_type(rules);
    pseudo_nth_last_of_type(rules);
    pseudo_only_of_type(rules);
    pseudo_not(rules);
    pseudo_contains(rules);
    pseudo_alias_header(rules);
    pseudo_alias_input(rules);
    pseudo_alias_submit(rules);
    proof {
        assert(final(rules)@.subrange(0, old(rules)@.len() as int) =~= old(rules)@);
    }
}

} // verus!
