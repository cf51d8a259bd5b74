//! A YAML tree as plain values, and the lookups that the format reads it by.
//!
//! Texts, sequences and mappings are read through tags (`!tag value` reads as
//! `value`), as `serde_yaml::Value::as_str`, `as_sequence` and `as_mapping`
//! do; a key of a mapping is found only when it is an untagged text.
use vstd::prelude::*;

verus! {

/// A YAML value. A mapping keeps its entries in document order; a number
/// holds the text that YAML prints for it.
#[derive(Debug)]
pub enum YamlValue {
    Null,
    Bool(bool),
    Number(String),
    String(String),
    Sequence(Vec<YamlValue>),
    Mapping(Vec<(YamlValue, YamlValue)>),
    Tagged(String, Box<YamlValue>),
}

/// The text that a value holds, looking through tags.
pub open spec fn spec_as_str(v: YamlValue) -> Option<Seq<char>>
    decreases v,
{
    match v {
        YamlValue::String(s) => Some(s@),
        YamlValue::Tagged(_, b) => spec_as_str(*b),
        _ => None,
    }
}

/// The items of a sequence, looking through tags.
pub open spec fn spec_as_sequence(v: YamlValue) -> Option<Seq<YamlValue>>
    decreases v,
{
    match v {
        YamlValue::Sequence(items) => Some(items@),
        YamlValue::Tagged(_, b) => spec_as_sequence(*b),
        _ => None,
    }
}

/// The entries of a mapping, looking through tags.
pub open spec fn spec_as_mapping(v: YamlValue) -> Option<Seq<(YamlValue, YamlValue)>>
    decreases v,
{
    match v {
        YamlValue::Mapping(m) => Some(m@),
        YamlValue::Tagged(_, b) => spec_as_mapping(*b),
        _ => None,
    }
}

/// Whether a mapping key is the untagged text `key`.
pub open spec fn key_is(k: YamlValue, key: Seq<char>) -> bool {
    match k {
        YamlValue::String(s) => s@ == key,
        _ => false,
    }
}

/// The value stored under the text key `key`: the first entry whose key is it.
pub open spec fn spec_mapping_get(m: Seq<(YamlValue, YamlValue)>, key: Seq<char>) -> Option<
    YamlValue,
>
    decreases m.len(),
{
    if m.len() == 0 {
        None
    } else if key_is(m[0].0, key) {
        Some(m[0].1)
    } else {
        spec_mapping_get(m.drop_first(), key)
    }
}

/// The text that a value holds, looking through tags.
pub fn as_str(v: &YamlValue) -> (r: Option<&String>)
    ensures
        r is Some <==> spec_as_str(*v) is Some,
        r matches Some(s) ==> spec_as_str(*v) == Some(s@),
    decreases v,
{
    match v {
        YamlValue::String(s) => Some(s),
        YamlValue::Tagged(_, b) => as_str(b),
        _ => None,
    }
}

/// The items of a sequence, looking through tags.
pub fn as_sequence(v: &YamlValue) -> (r: Option<&Vec<YamlValue>>)
    ensures
        r is Some <==> spec_as_sequence(*v) is Some,
        r matches Some(s) ==> spec_as_sequence(*v) == Some(s@),
    decreases v,
{
    match v {
        YamlValue::Sequence(items) => Some(items),
        YamlValue::Tagged(_, b) => as_sequence(b),
        _ => None,
    }
}

/// The entries of a mapping, looking through tags.
pub fn as_mapping(v: &YamlValue) -> (r: Option<&Vec<(YamlValue, YamlValue)>>)
    ensures
        r is Some <==> spec_as_mapping(*v) is Some,
        r matches Some(m) ==> spec_as_mapping(*v) == Some(m@),
    decreases v,
{
    match v {
        YamlValue::Mapping(m) => Some(m),
        YamlValue::Tagged(_, b) => as_mapping(b),
        _ => None,
    }
}

/// The value stored under the text key `key`.
pub fn mapping_get<'a>(m: &'a Vec<(YamlValue, YamlValue)>, key: &str) -> (r: Option<&'a YamlValue>)
    ensures
        r is Some <==> spec_mapping_get(m@, key@) is Some,
        r matches Some(v) ==> spec_mapping_get(m@, key@) == Some(*v),
{
    let n = m.len();
    let mut i: usize = 0;
    assert(m@.skip(0) =~= m@);
    while i < n
        invariant
            n == m@.len(),
            i <= n,
            spec_mapping_get(m@, key@) == spec_mapping_get(m@.skip(i as int), key@),
        decreases n - i,
    {
        let hit = match &m[i].0 {
            YamlValue::String(s) => crate::strings::str_eq(s.as_str(), key),
            _ => false,
        };
        assert(m@.skip(i as int)[0] == m@[i as int]);
        if hit {
            return Some(&m[i].1);
        }
        assert(m@.skip(i as int).drop_first() =~= m@.skip(i + 1));
        i = i + 1;
    }
    None
}

// ---- reading YAML text ----
#[verifier::external_type_specification]
#[verifier::external_body]
pub struct ExSerdeYamlValue(serde_yaml::Value);

/// The YAML tree that `serde_yaml` reads from a text, or the text of its error.
pub uninterp spec fn yaml_read(text: Seq<char>) -> Result<YamlValue, Seq<char>>;

/// The library's copy of a `serde_yaml::Value`, variant for variant: numbers
/// and tags as `serde_yaml` prints them, mappings in their order. Nothing is
/// stated of it on its own; `read_yaml`, its only caller, states the result.
#[verifier::external_body]
fn yaml_value_from(v: &serde_yaml::Value) -> YamlValue {
    match v {
        serde_yaml::Value::Null => YamlValue::Null,
        serde_yaml::Value::Bool(b) => YamlValue::Bool(*b),
        serde_yaml::Value::Number(n) => YamlValue::Number(n.to_string()),
        serde_yaml::Value::String(s) => YamlValue::String(s.clone()),
        serde_yaml::Value::Sequence(items) => YamlValue::Sequence(items.iter().map(yaml_value_from).collect()),
        serde_yaml::Value::Mapping(m) => YamlValue::Mapping(m.iter().map(|(k, x)| (yaml_value_from(k), yaml_value_from(x))).collect()),
        serde_yaml::Value::Tagged(t) => YamlValue::Tagged(t.tag.to_string(), Box::new(yaml_value_from(&t.value))),
    }
}

/// Reads YAML text: calls `serde_yaml::from_str::<serde_yaml::Value>`.
/// Claimed: the tree (converted one for one), or the error's text, is the one
/// named by `yaml_read` for this text.
#[verifier::external_body]
pub fn read_yaml(input: &str) -> (r: Result<YamlValue, String>)
    ensures
        match r {
            Ok(v) => yaml_read(input@) == Ok::<YamlValue, Seq<char>>(v),
            Err(e) => yaml_read(input@) == Err::<YamlValue, Seq<char>>(e@),
        },
{
    match serde_yaml::from_str::<serde_yaml::Value>(input) {
        Ok(v) => Ok(yaml_value_from(&v)),
        Err(err) => Err(err.to_string()),
    }
}

} // verus!
