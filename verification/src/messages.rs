//! The text of every error that reading or checking a document can report.
use vstd::prelude::*;
use crate::model::ValidationError;

verus! {

/// A text made from a literal.
pub fn text(s: &str) -> (r: String)
    ensures
        r@ == s@,
{
    String::from_str(s)
}

/// The text `a`, then `b`, then `c`.
pub fn join3(a: &str, b: &str, c: &str) -> (r: String)
    ensures
        r@ == a@ + b@ + c@,
{
    let mut m = String::from_str(a);
    m.append(b);
    m.append(c);
    m
}

/// The text `a`, then `b`, then `c`, then `d`, then `e`.
pub fn join5(a: &str, b: &str, c: &str, d: &str, e: &str) -> (r: String)
    ensures
        r@ == a@ + b@ + c@ + d@ + e@,
{
    let mut m = join3(a, b, c);
    m.append(d);
    m.append(e);
    m
}

/// An error whose message is `a`, then `b`, then `c`.
pub fn error3(a: &str, b: &str, c: &str) -> (r: ValidationError)
    ensures
        r@ == a@ + b@ + c@,
{
    ValidationError::new(join3(a, b, c))
}

/// An error whose message is `a`, then `b`, then `c`, then `d`, then `e`.
pub fn error5(a: &str, b: &str, c: &str, d: &str, e: &str) -> (r: ValidationError)
    ensures
        r@ == a@ + b@ + c@ + d@ + e@,
{
    ValidationError::new(join5(a, b, c, d, e))
}

// ---- reading ----
pub open spec fn msg_yaml(detail: Seq<char>) -> Seq<char> {
    "YAML parse error: "@ + detail
}

pub open spec fn msg_top_level() -> Seq<char> {
    "top level must be a mapping"@
}

pub open spec fn msg_not_string(key: Seq<char>) -> Seq<char> {
    "`"@ + key + "` must be a string"@
}

pub open spec fn msg_not_mapping(key: Seq<char>) -> Seq<char> {
    "`"@ + key + "` must be a mapping"@
}

pub open spec fn msg_not_sequence(key: Seq<char>) -> Seq<char> {
    "`"@ + key + "` must be a sequence"@
}

pub open spec fn msg_keys(context: Seq<char>) -> Seq<char> {
    "keys in `"@ + context + "` must be strings"@
}

pub open spec fn msg_children_not_sequence(section: Seq<char>) -> Seq<char> {
    "entries in `"@ + section + "` must contain a sequence of children"@
}

pub open spec fn msg_branch_keys(section: Seq<char>) -> Seq<char> {
    "branch entries in `"@ + section + "` must contain exactly one key"@
}

pub open spec fn msg_entry_kind(section: Seq<char>) -> Seq<char> {
    "entries in `"@ + section + "` must be strings or single-key mappings"@
}

pub open spec fn ctx_nav(id: Seq<char>) -> Seq<char> {
    "nav `"@ + id + "`"@
}

pub open spec fn ctx_node(id: Seq<char>) -> Seq<char> {
    "node `"@ + id + "`"@
}

pub open spec fn ctx_attr(id: Seq<char>, name: Seq<char>) -> Seq<char> {
    "node `"@ + id + "` attribute `"@ + name + "`"@
}

pub open spec fn ctx_group_members(id: Seq<char>) -> Seq<char> {
    "group `"@ + id + "` members"@
}

pub open spec fn msg_set_not_sequence(context: Seq<char>) -> Seq<char> {
    context + " must be a sequence"@
}

pub open spec fn msg_set_not_strings(context: Seq<char>) -> Seq<char> {
    context + " must contain only strings"@
}

pub open spec fn msg_node_not_mapping(id: Seq<char>) -> Seq<char> {
    "node `"@ + id + "` must be a mapping of attributes"@
}

pub open spec fn msg_attr_kind(id: Seq<char>, name: Seq<char>) -> Seq<char> {
    "node `"@ + id + "` attribute `"@ + name + "` must be scalar or vector"@
}

pub open spec fn msg_attr_tagged(id: Seq<char>, name: Seq<char>) -> Seq<char> {
    "node `"@ + id + "` attribute `"@ + name + "` must not use tags"@
}

pub open spec fn msg_group_entry() -> Seq<char> {
    "group entries must be mappings"@
}

pub open spec fn msg_field_missing(context: Seq<char>, key: Seq<char>) -> Seq<char> {
    context + " must define `"@ + key + "`"@
}

pub open spec fn msg_field_not_string(context: Seq<char>, key: Seq<char>) -> Seq<char> {
    context + " field `"@ + key + "` must be a string"@
}

pub open spec fn msg_group_members_missing(id: Seq<char>) -> Seq<char> {
    "group `"@ + id + "` must define `members`"@
}

// ---- checking ----
pub open spec fn msg_inherit_repeat(id: Seq<char>) -> Seq<char> {
    "inherit leaf `"@ + id + "` appears more than once"@
}

pub open spec fn msg_layout_repeat(id: Seq<char>) -> Seq<char> {
    "inherit layout `"@ + id + "` appears more than once"@
}

pub open spec fn msg_drill_repeat(id: Seq<char>) -> Seq<char> {
    "drill node `"@ + id + "` appears more than once"@
}

pub open spec fn msg_drill_not_page(id: Seq<char>) -> Seq<char> {
    "drill node `"@ + id + "` must be page-like"@
}

pub open spec fn msg_nav_empty(id: Seq<char>) -> Seq<char> {
    "nav `"@ + id + "` must not be empty"@
}

pub open spec fn msg_nav_target(id: Seq<char>, target: Seq<char>) -> Seq<char> {
    "nav `"@ + id + "` target `"@ + target + "` must be a page"@
}

pub open spec fn msg_unknown_nav(node: Seq<char>, nav: Seq<char>) -> Seq<char> {
    "node `"@ + node + "` references unknown nav `"@ + nav + "`"@
}

pub open spec fn msg_group_member(group: Seq<char>, member: Seq<char>) -> Seq<char> {
    "group `"@ + group + "` member `"@ + member + "` must be a page"@
}

} // verus!
