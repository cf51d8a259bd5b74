//! Reading a document from `.gui` text and from its YAML tree.
//!
//! Each section is optional; the first problem met, in the order YAML syntax,
//! app, drill, inherit, nav, node, pages, groups (and, inside a section, in
//! document order), is the one reported.
use vstd::prelude::*;
use crate::collections::{StrMap, StrSet};
use crate::messages::{self, error3, error5, join3, join5, text};
use crate::model::{
    child_view, forest_view, section_view, texts, AttrModel, AttrValue, DocModel,
    Document, GroupModel, GroupSpec, NodeSpec, TreeChild, TreeNode, TreeSection,
    ValidationError,
};
use crate::yaml::{
    as_mapping, as_sequence, as_str, mapping_get, read_yaml, spec_as_mapping, spec_as_sequence,
    spec_as_str, spec_mapping_get, yaml_read, YamlValue,
};

verus! {

/// `r` is the outcome `s` describes: the same model on success, the same message on failure.
pub open spec fn outcome<T, M>(
    r: Result<T, ValidationError>,
    s: Result<M, Seq<char>>,
    f: spec_fn(T) -> M,
) -> bool {
    match (r, s) {
        (Ok(a), Ok(b)) => f(a) == b,
        (Err(e), Err(m)) => e@ == m,
        _ => false,
    }
}

// ---- texts and sets of texts ----
/// A key that must be a text.
pub open spec fn spec_expect_string(v: YamlValue, context: Seq<char>) -> Result<
    Seq<char>,
    Seq<char>,
> {
    match spec_as_str(v) {
        Some(s) => Ok(s),
        None => Err(messages::msg_keys(context)),
    }
}

/// Reads a key that must be a text.
pub fn expect_string(v: &YamlValue, context: &str) -> (r: Result<String, ValidationError>)
    ensures
        outcome(r, spec_expect_string(*v, context@), |s: String| s@),
{
    match as_str(v) {
        Some(s) => Ok(s.clone()),
        None => Err(error3("keys in `", context, "` must be strings")),
    }
}

/// The set that the texts in `items` add to `acc`, item by item.
pub open spec fn spec_string_items(items: Seq<YamlValue>, context: Seq<char>, acc: Set<Seq<char>>) -> Result<
    Set<Seq<char>>,
    Seq<char>,
>
    decreases items.len(),
{
    if items.len() == 0 {
        Ok(acc)
    } else {
        match spec_as_str(items[0]) {
            None => Err(messages::msg_set_not_strings(context)),
            Some(s) => spec_string_items(items.drop_first(), context, acc.insert(s)),
        }
    }
}

/// A set of texts written as a sequence.
pub open spec fn spec_string_set(v: YamlValue, context: Seq<char>) -> Result<
    Set<Seq<char>>,
    Seq<char>,
> {
    match spec_as_sequence(v) {
        None => Err(messages::msg_set_not_sequence(context)),
        Some(items) => spec_string_items(items, context, Set::empty()),
    }
}

/// Reads a set of texts written as a sequence.
pub fn parse_string_set(v: &YamlValue, context: &str) -> (r: Result<StrSet, ValidationError>)
    ensures
        outcome(r, spec_string_set(*v, context@), |s: StrSet| s.set()),
{
    let items = match as_sequence(v) {
        Some(items) => items,
        None => {
            let mut m = text(context);
            m.append(" must be a sequence");
            return Err(ValidationError::new(m));
        },
    };
    let mut out = StrSet::new();
    let n = items.len();
    assert(items@.skip(0) =~= items@);
    for i in 0..n
        invariant
            n == items@.len(),
            spec_as_sequence(*v) == Some(items@),
            spec_string_set(*v, context@) == spec_string_items(items@.skip(i as int), context@, out.set()),
    {
        assert(items@.skip(i as int)[0] == items@[i as int]);
        assert(items@.skip(i as int).drop_first() =~= items@.skip(i + 1));
        match as_str(&items[i]) {
            Some(s) => {
                out.insert(s.clone());
            },
            None => {
                let mut m = text(context);
                m.append(" must contain only strings");
                return Err(ValidationError::new(m));
            },
        }
    }
    Ok(out)
}

/// The texts of `items`, in order, after `acc`.
pub open spec fn spec_string_list_items(
    items: Seq<YamlValue>,
    context: Seq<char>,
    acc: Seq<Seq<char>>,
) -> Result<Seq<Seq<char>>, Seq<char>>
    decreases items.len(),
{
    if items.len() == 0 {
        Ok(acc)
    } else {
        match spec_as_str(items[0]) {
            None => Err(messages::msg_set_not_strings(context)),
            Some(s) => spec_string_list_items(items.drop_first(), context, acc.push(s)),
        }
    }
}

/// An ordered list of texts written as a sequence.
pub open spec fn spec_string_list(v: YamlValue, context: Seq<char>) -> Result<
    Seq<Seq<char>>,
    Seq<char>,
> {
    match spec_as_sequence(v) {
        None => Err(messages::msg_set_not_sequence(context)),
        Some(items) => spec_string_list_items(items, context, Seq::empty()),
    }
}

/// Reads an ordered list of texts written as a sequence, keeping order and repeats.
pub fn parse_string_list(v: &YamlValue, context: &str) -> (r: Result<
    Vec<String>,
    ValidationError,
>)
    ensures
        outcome(r, spec_string_list(*v, context@), |l: Vec<String>| texts(l@)),
{
    let items = match as_sequence(v) {
        Some(items) => items,
        None => {
            let mut m = text(context);
            m.append(" must be a sequence");
            return Err(ValidationError::new(m));
        },
    };
    let mut out: Vec<String> = Vec::new();
    let n = items.len();
    assert(items@.skip(0) =~= items@);
    assert(texts(out@) =~= Seq::<Seq<char>>::empty());
    for i in 0..n
        invariant
            n == items@.len(),
            spec_as_sequence(*v) == Some(items@),
            spec_string_list(*v, context@) == spec_string_list_items(
                items@.skip(i as int),
                context@,
                texts(out@),
            ),
    {
        assert(items@.skip(i as int)[0] == items@[i as int]);
        assert(items@.skip(i as int).drop_first() =~= items@.skip(i + 1));
        match as_str(&items[i]) {
            Some(s) => {
                let ghost before = texts(out@);
                out.push(s.clone());
                assert(texts(out@) =~= before.push(s@));
            },
            None => {
                let mut m = text(context);
                m.append(" must contain only strings");
                return Err(ValidationError::new(m));
            },
        }
    }
    Ok(out)
}

// ---- forests ----
/// The children written under a forest entry: a sequence of ids and single-key mappings.
pub open spec fn spec_tree_children(v: YamlValue, section: Seq<char>) -> Result<
    Seq<TreeNode>,
    Seq<char>,
>
    decreases v,
{
    match v {
        YamlValue::Tagged(_, b) => spec_tree_children(*b, section),
        YamlValue::Sequence(items) => {
            proof {
                assert(decreases_to!(v => items));
                assert(decreases_to!(items => items@));
            }
            spec_tree_items(items@, section, Seq::empty())
        },
        _ => Err(messages::msg_children_not_sequence(section)),
    }
}

/// The children that `items` add after `acc`, item by item.
pub open spec fn spec_tree_items(
    items: Seq<YamlValue>,
    section: Seq<char>,
    acc: Seq<TreeNode>,
) -> Result<Seq<TreeNode>, Seq<char>>
    decreases items,
{
    if items.len() == 0 {
        Ok(acc)
    } else {
        match spec_tree_item(items[0], section) {
            Err(e) => Err(e),
            Ok(c) => spec_tree_items(items.drop_first(), section, acc.push(c)),
        }
    }
}

/// One child: an id, or a mapping of one id to its own children.
pub open spec fn spec_tree_item(item: YamlValue, section: Seq<char>) -> Result<
    TreeNode,
    Seq<char>,
>
    decreases item,
{
    match item {
        YamlValue::String(id) => Ok(TreeNode::Leaf(id@)),
        YamlValue::Mapping(m) => {
            if m@.len() != 1 {
                Err(messages::msg_branch_keys(section))
            } else {
                match spec_expect_string(m@[0].0, section) {
                    Err(e) => Err(e),
                    Ok(id) => {
                        proof {
                            assert(decreases_to!(item => m));
                            assert(decreases_to!(m => m@));
                            assert(decreases_to!(m@ => m@[0]));
                            assert(decreases_to!(m@[0] => m@[0].1));
                        }
                        match spec_tree_children(m@[0].1, section) {
                            Err(e) => Err(e),
                            Ok(kids) => Ok(TreeNode::Branch(id, kids)),
                        }
                    },
                }
            }
        },
        _ => Err(messages::msg_entry_kind(section)),
    }
}

/// Reads the children written under a forest entry.
pub fn parse_tree_children(value: &YamlValue, section: &str) -> (r: Result<
    Vec<TreeChild>,
    ValidationError,
>)
    ensures
        outcome(r, spec_tree_children(*value, section@), |v: Vec<TreeChild>| forest_view(v@)),
    decreases value,
{
    match value {
        YamlValue::Tagged(_, b) => parse_tree_children(b, section),
        YamlValue::Sequence(items) => {
            let mut children: Vec<TreeChild> = Vec::new();
            let n = items.len();
            assert(items@.skip(0) =~= items@);
            assert(forest_view(children@) =~= Seq::<TreeNode>::empty());
            for i in 0..n
                invariant
                    n == items@.len(),
                    *value == YamlValue::Sequence(*items),
                    spec_tree_children(*value, section@) == spec_tree_items(
                        items@.skip(i as int),
                        section@,
                        forest_view(children@),
                    ),
            {
                assert(items@.skip(i as int)[0] == items@[i as int]);
                assert(items@.skip(i as int).drop_first() =~= items@.skip(i + 1));
                let ghost before = children@;
                let child = match &items[i] {
                    YamlValue::String(id) => {
                        let c = TreeChild::Leaf(id.clone());
                        assert(spec_tree_item(items@[i as int], section@) == Ok::<
                            TreeNode,
                            Seq<char>,
                        >(child_view(c)));
                        c
                    },
                    YamlValue::Mapping(map) => {
                        if map.len() != 1 {
                            assert(items@[i as int] == YamlValue::Mapping(*map));
                            assert(spec_tree_item(items@[i as int], section@) is Err);
                            return Err(
                                error3(
                                    "branch entries in `",
                                    section,
                                    "` must contain exactly one key",
                                ),
                            );
                        }
                        let branch_id = expect_string(&map[0].0, section)?;
                        proof {
                            assert(decreases_to!(value => items));
                            assert(decreases_to!(items => items@));
                            assert(decreases_to!(items@ => items@[i as int]));
                            assert(decreases_to!(items@[i as int] => map));
                            assert(decreases_to!(map => map@));
                            assert(decreases_to!(map@ => map@[0]));
                            assert(decreases_to!(map@[0] => map@[0].1));
                        }
                        let kids = parse_tree_children(&map[0].1, section)?;
                        let c = TreeChild::Branch(branch_id, kids);
                        assert(spec_tree_item(items@[i as int], section@) == Ok::<
                            TreeNode,
                            Seq<char>,
                        >(child_view(c)));
                        c
                    },
                    _ => {
                        return Err(
                            error3(
                                "entries in `",
                                section,
                                "` must be strings or single-key mappings",
                            ),
                        );
                    },
                };
                children.push(child);
                assert(children@.drop_last() =~= before);
                assert(forest_view(children@) == forest_view(before).push(child_view(child)));
            }
            Ok(children)
        },
        _ => Err(error3("entries in `", section, "` must contain a sequence of children")),
    }
}

// ---- sections ----
/// The entries of a forest section, added to `acc` in document order.
pub open spec fn spec_section_entries(
    m: Seq<(YamlValue, YamlValue)>,
    key: Seq<char>,
    acc: Map<Seq<char>, Seq<TreeNode>>,
) -> Result<Map<Seq<char>, Seq<TreeNode>>, Seq<char>>
    decreases m.len(),
{
    if m.len() == 0 {
        Ok(acc)
    } else {
        match spec_expect_string(m[0].0, key) {
            Err(e) => Err(e),
            Ok(id) => match spec_tree_children(m[0].1, key) {
                Err(e) => Err(e),
                Ok(kids) => spec_section_entries(m.drop_first(), key, acc.insert(id, kids)),
            },
        }
    }
}

/// The forest section stored under `key`: empty when the key is absent.
pub open spec fn spec_tree_section(root: Seq<(YamlValue, YamlValue)>, key: Seq<char>) -> Result<
    Map<Seq<char>, Seq<TreeNode>>,
    Seq<char>,
> {
    match spec_mapping_get(root, key) {
        None => Ok(Map::empty()),
        Some(v) => match spec_as_mapping(v) {
            None => Err(messages::msg_not_mapping(key)),
            Some(m) => spec_section_entries(m, key, Map::empty()),
        },
    }
}

/// Reads the forest section stored under `key`.
pub fn parse_tree_section(root: &Vec<(YamlValue, YamlValue)>, key: &str) -> (r: Result<
    TreeSection,
    ValidationError,
>)
    ensures
        outcome(r, spec_tree_section(root@, key@), |s: TreeSection| section_view(s)),
{
    let value = match mapping_get(root, key) {
        None => {
            let e: TreeSection = StrMap::new();
            assert(section_view(e) =~= Map::<Seq<char>, Seq<TreeNode>>::empty());
            return Ok(e);
        },
        Some(v) => v,
    };
    let mapping = match as_mapping(value) {
        Some(m) => m,
        None => {
            return Err(error3("`", key, "` must be a mapping"));
        },
    };
    let mut section: TreeSection = StrMap::new();
    assert(section_view(section) =~= Map::<Seq<char>, Seq<TreeNode>>::empty());
    let n = mapping.len();
    assert(mapping@.skip(0) =~= mapping@);
    for i in 0..n
        invariant
            n == mapping@.len(),
            spec_tree_section(root@, key@) == spec_section_entries(
                mapping@.skip(i as int),
                key@,
                section_view(section),
            ),
    {
        assert(mapping@.skip(i as int)[0] == mapping@[i as int]);
        assert(mapping@.skip(i as int).drop_first() =~= mapping@.skip(i + 1));
        let node_id = expect_string(&mapping[i].0, key)?;
        let children = parse_tree_children(&mapping[i].1, key)?;
        let ghost before = section_view(section);
        let ghost id = node_id@;
        let ghost kids = forest_view(children@);
        section.insert(node_id, children);
        assert(section_view(section) =~= before.insert(id, kids));
    }
    Ok(section)
}

/// The navs of the `nav` section, added to `acc` in document order.
pub open spec fn spec_nav_entries(
    m: Seq<(YamlValue, YamlValue)>,
    key: Seq<char>,
    acc: Map<Seq<char>, Seq<Seq<char>>>,
) -> Result<Map<Seq<char>, Seq<Seq<char>>>, Seq<char>>
    decreases m.len(),
{
    if m.len() == 0 {
        Ok(acc)
    } else {
        match spec_expect_string(m[0].0, key) {
            Err(e) => Err(e),
            Ok(id) => match spec_string_list(m[0].1, messages::ctx_nav(id)) {
                Err(e) => Err(e),
                Ok(targets) => spec_nav_entries(m.drop_first(), key, acc.insert(id, targets)),
            },
        }
    }
}

/// The nav section stored under `key`: empty when the key is absent.
pub open spec fn spec_nav_section(root: Seq<(YamlValue, YamlValue)>, key: Seq<char>) -> Result<
    Map<Seq<char>, Seq<Seq<char>>>,
    Seq<char>,
> {
    match spec_mapping_get(root, key) {
        None => Ok(Map::empty()),
        Some(v) => match spec_as_mapping(v) {
            None => Err(messages::msg_not_mapping(key)),
            Some(m) => spec_nav_entries(m, key, Map::empty()),
        },
    }
}

/// The model of a map from nav ids to their ordered targets.
pub open spec fn navs_view(m: StrMap<Vec<String>>) -> Map<Seq<char>, Seq<Seq<char>>> {
    m.map().map_values(|v: Vec<String>| texts(v@))
}

/// Reads the nav section stored under `key`: each nav with its targets in
/// declared order, repeats kept, so that a target that is no page and is
/// listed twice is reported once for each time it is listed.
pub fn parse_nav_section(root: &Vec<(YamlValue, YamlValue)>, key: &str) -> (r: Result<
    StrMap<Vec<String>>,
    ValidationError,
>)
    ensures
        outcome(r, spec_nav_section(root@, key@), |m: StrMap<Vec<String>>| navs_view(m)),
{
    let value = match mapping_get(root, key) {
        None => {
            let e: StrMap<Vec<String>> = StrMap::new();
            assert(navs_view(e) =~= Map::<Seq<char>, Seq<Seq<char>>>::empty());
            return Ok(e);
        },
        Some(v) => v,
    };
    let mapping = match as_mapping(value) {
        Some(m) => m,
        None => {
            return Err(error3("`", key, "` must be a mapping"));
        },
    };
    let mut navs: StrMap<Vec<String>> = StrMap::new();
    assert(navs_view(navs) =~= Map::<Seq<char>, Seq<Seq<char>>>::empty());
    let n = mapping.len();
    assert(mapping@.skip(0) =~= mapping@);
    for i in 0..n
        invariant
            n == mapping@.len(),
            spec_nav_section(root@, key@) == spec_nav_entries(
                mapping@.skip(i as int),
                key@,
                navs_view(navs),
            ),
    {
        assert(mapping@.skip(i as int)[0] == mapping@[i as int]);
        assert(mapping@.skip(i as int).drop_first() =~= mapping@.skip(i + 1));
        let nav_id = expect_string(&mapping[i].0, key)?;
        let context = join3("nav `", nav_id.as_str(), "`");
        let members = parse_string_list(&mapping[i].1, context.as_str())?;
        let ghost before = navs_view(navs);
        let ghost id = nav_id@;
        let ghost targets = texts(members@);
        navs.insert(nav_id, members);
        assert(navs_view(navs) =~= before.insert(id, targets));
    }
    Ok(navs)
}

/// The value of one attribute.
pub open spec fn spec_attr_value(v: YamlValue, id: Seq<char>, name: Seq<char>) -> Result<
    AttrModel,
    Seq<char>,
> {
    match v {
        YamlValue::Sequence(_) => match spec_string_set(v, messages::ctx_attr(id, name)) {
            Err(e) => Err(e),
            Ok(s) => Ok(AttrModel::Vector(s)),
        },
        YamlValue::String(s) => Ok(AttrModel::Scalar(s@)),
        YamlValue::Number(n) => Ok(AttrModel::Scalar(n@)),
        YamlValue::Bool(b) => Ok(
            AttrModel::Scalar(
                if b {
                    "true"@
                } else {
                    "false"@
                },
            ),
        ),
        YamlValue::Null => Ok(AttrModel::Scalar("null"@)),
        YamlValue::Mapping(_) => Err(messages::msg_attr_kind(id, name)),
        YamlValue::Tagged(_, _) => Err(messages::msg_attr_tagged(id, name)),
    }
}

/// A YAML boolean attribute reads as its own text, and so the two booleans
/// read as two different attributes: `true` as "true", `false` as "false".
pub proof fn law_bool_attr_is_its_text(b: bool, id: Seq<char>, name: Seq<char>)
    ensures
        spec_attr_value(YamlValue::Bool(b), id, name) == Ok::<AttrModel, Seq<char>>(
            AttrModel::Scalar(if b { seq!['t', 'r', 'u', 'e'] } else { seq!['f', 'a', 'l', 's', 'e'] }),
        ),
        spec_attr_value(YamlValue::Bool(true), id, name) != spec_attr_value(
            YamlValue::Bool(false),
            id,
            name,
        ),
{
    reveal_strlit("true");
    reveal_strlit("false");
    assert("true"@ =~= seq!['t', 'r', 'u', 'e']);
    assert("false"@ =~= seq!['f', 'a', 'l', 's', 'e']);
    assert("true"@.len() != "false"@.len());
}

/// A YAML text or number attribute reads as its text, and null as "null":
/// two different texts give two different attributes.
pub proof fn law_scalar_attrs_keep_their_text(
    s: String,
    t: String,
    n: String,
    id: Seq<char>,
    name: Seq<char>,
)
    ensures
        spec_attr_value(YamlValue::String(s), id, name) == Ok::<AttrModel, Seq<char>>(
            AttrModel::Scalar(s@),
        ),
        spec_attr_value(YamlValue::Number(n), id, name) == Ok::<AttrModel, Seq<char>>(
            AttrModel::Scalar(n@),
        ),
        spec_attr_value(YamlValue::Null, id, name) == Ok::<AttrModel, Seq<char>>(
            AttrModel::Scalar(seq!['n', 'u', 'l', 'l']),
        ),
        s@ != t@ ==> spec_attr_value(YamlValue::String(s), id, name) != spec_attr_value(
            YamlValue::String(t),
            id,
            name,
        ),
{
    reveal_strlit("null");
    assert("null"@ =~= seq!['n', 'u', 'l', 'l']);
}

/// Reads the value of one attribute.
pub fn parse_attr_value(v: &YamlValue, id: &str, name: &str) -> (r: Result<
    AttrValue,
    ValidationError,
>)
    ensures
        outcome(r, spec_attr_value(*v, id@, name@), |a: AttrValue| a@),
{
    match v {
        YamlValue::Sequence(_) => {
            let context = join5("node `", id, "` attribute `", name, "`");
            let set = parse_string_set(v, context.as_str())?;
            Ok(AttrValue::Vector(set))
        },
        YamlValue::String(s) => Ok(AttrValue::Scalar(s.clone())),
        YamlValue::Number(n) => Ok(AttrValue::Scalar(n.clone())),
        YamlValue::Bool(b) => {
            if *b {
                Ok(AttrValue::Scalar(text("true")))
            } else {
                Ok(AttrValue::Scalar(text("false")))
            }
        },
        YamlValue::Null => Ok(AttrValue::Scalar(text("null"))),
        YamlValue::Mapping(_) => Err(
            error5("node `", id, "` attribute `", name, "` must be scalar or vector"),
        ),
        YamlValue::Tagged(_, _) => Err(
            error5("node `", id, "` attribute `", name, "` must not use tags"),
        ),
    }
}

/// The attributes of node `id`, added to `acc` in document order.
pub open spec fn spec_attr_entries(
    m: Seq<(YamlValue, YamlValue)>,
    id: Seq<char>,
    acc: Map<Seq<char>, AttrModel>,
) -> Result<Map<Seq<char>, AttrModel>, Seq<char>>
    decreases m.len(),
{
    if m.len() == 0 {
        Ok(acc)
    } else {
        match spec_expect_string(m[0].0, messages::ctx_node(id)) {
            Err(e) => Err(e),
            Ok(name) => match spec_attr_value(m[0].1, id, name) {
                Err(e) => Err(e),
                Ok(a) => spec_attr_entries(m.drop_first(), id, acc.insert(name, a)),
            },
        }
    }
}

/// The attributes of node `id`, written as a mapping.
pub open spec fn spec_node_attrs(v: YamlValue, id: Seq<char>) -> Result<
    Map<Seq<char>, AttrModel>,
    Seq<char>,
> {
    match spec_as_mapping(v) {
        None => Err(messages::msg_node_not_mapping(id)),
        Some(m) => spec_attr_entries(m, id, Map::empty()),
    }
}

/// Reads the attributes of node `id`.
pub fn parse_node_attrs(v: &YamlValue, id: &str) -> (r: Result<NodeSpec, ValidationError>)
    ensures
        outcome(r, spec_node_attrs(*v, id@), |n: NodeSpec| n@),
{
    let attrs_map = match as_mapping(v) {
        Some(m) => m,
        None => {
            return Err(error3("node `", id, "` must be a mapping of attributes"));
        },
    };
    let context = join3("node `", id, "`");
    let mut attrs: StrMap<AttrValue> = StrMap::new();
    assert(attrs.map().map_values(|a: AttrValue| a@) =~= Map::<Seq<char>, AttrModel>::empty());
    let n = attrs_map.len();
    assert(attrs_map@.skip(0) =~= attrs_map@);
    for i in 0..n
        invariant
            n == attrs_map@.len(),
            context@ == messages::ctx_node(id@),
            spec_node_attrs(*v, id@) == spec_attr_entries(
                attrs_map@.skip(i as int),
                id@,
                attrs.map().map_values(|a: AttrValue| a@),
            ),
    {
        assert(attrs_map@.skip(i as int)[0] == attrs_map@[i as int]);
        assert(attrs_map@.skip(i as int).drop_first() =~= attrs_map@.skip(i + 1));
        let attr_name = expect_string(&attrs_map[i].0, context.as_str())?;
        let parsed = parse_attr_value(&attrs_map[i].1, id, attr_name.as_str())?;
        let ghost before = attrs.map().map_values(|a: AttrValue| a@);
        let ghost name = attr_name@;
        let ghost model = parsed@;
        attrs.insert(attr_name, parsed);
        assert(attrs.map().map_values(|a: AttrValue| a@) =~= before.insert(name, model));
    }
    Ok(NodeSpec { attrs })
}

/// The nodes of the `node` section, added to `acc` in document order.
pub open spec fn spec_node_entries(
    m: Seq<(YamlValue, YamlValue)>,
    key: Seq<char>,
    acc: Map<Seq<char>, Map<Seq<char>, AttrModel>>,
) -> Result<Map<Seq<char>, Map<Seq<char>, AttrModel>>, Seq<char>>
    decreases m.len(),
{
    if m.len() == 0 {
        Ok(acc)
    } else {
        match spec_expect_string(m[0].0, key) {
            Err(e) => Err(e),
            Ok(id) => match spec_node_attrs(m[0].1, id) {
                Err(e) => Err(e),
                Ok(attrs) => spec_node_entries(m.drop_first(), key, acc.insert(id, attrs)),
            },
        }
    }
}

/// The nodes stored under `key`, added to those of `acc`: `acc` itself when the key is absent.
pub open spec fn spec_node_section(
    root: Seq<(YamlValue, YamlValue)>,
    key: Seq<char>,
    acc: Map<Seq<char>, Map<Seq<char>, AttrModel>>,
) -> Result<Map<Seq<char>, Map<Seq<char>, AttrModel>>, Seq<char>> {
    match spec_mapping_get(root, key) {
        None => Ok(acc),
        Some(v) => match spec_as_mapping(v) {
            None => Err(messages::msg_not_mapping(key)),
            Some(m) => spec_node_entries(m, key, acc),
        },
    }
}

/// The model of a map from node ids to their attributes.
pub open spec fn nodes_view(m: StrMap<NodeSpec>) -> Map<Seq<char>, Map<Seq<char>, AttrModel>> {
    m.map().map_values(|n: NodeSpec| n@)
}

/// Reads the nodes stored under `key` into `nodes`; a node declared again replaces the earlier one.
pub fn parse_node_section(
    root: &Vec<(YamlValue, YamlValue)>,
    key: &str,
    init: StrMap<NodeSpec>,
) -> (r: Result<StrMap<NodeSpec>, ValidationError>)
    ensures
        outcome(r, spec_node_section(root@, key@, nodes_view(init)), |m: StrMap<NodeSpec>| nodes_view(m)),
{
    let ghost start = nodes_view(init);
    let mut nodes = init;
    let value = match mapping_get(root, key) {
        None => {
            return Ok(nodes);
        },
        Some(v) => v,
    };
    let mapping = match as_mapping(value) {
        Some(m) => m,
        None => {
            return Err(error3("`", key, "` must be a mapping"));
        },
    };
    let n = mapping.len();
    assert(mapping@.skip(0) =~= mapping@);
    for i in 0..n
        invariant
            n == mapping@.len(),
            start == nodes_view(init),
            spec_node_section(root@, key@, start) == spec_node_entries(
                mapping@.skip(i as int),
                key@,
                nodes_view(nodes),
            ),
    {
        assert(mapping@.skip(i as int)[0] == mapping@[i as int]);
        assert(mapping@.skip(i as int).drop_first() =~= mapping@.skip(i + 1));
        let node_id = expect_string(&mapping[i].0, key)?;
        let spec = parse_node_attrs(&mapping[i].1, node_id.as_str())?;
        let ghost before = nodes_view(nodes);
        let ghost id = node_id@;
        let ghost model = spec@;
        nodes.insert(node_id, spec);
        assert(nodes_view(nodes) =~= before.insert(id, model));
    }
    Ok(nodes)
}

// ---- app and groups ----
/// The optional text stored under `key`.
pub open spec fn spec_optional_string(root: Seq<(YamlValue, YamlValue)>, key: Seq<char>) -> Result<
    Option<Seq<char>>,
    Seq<char>,
> {
    match spec_mapping_get(root, key) {
        Some(YamlValue::String(s)) => Ok(Some(s@)),
        Some(_) => Err(messages::msg_not_string(key)),
        None => Ok(None),
    }
}

/// Reads the optional text stored under `key`.
pub fn optional_string(root: &Vec<(YamlValue, YamlValue)>, key: &str) -> (r: Result<
    Option<String>,
    ValidationError,
>)
    ensures
        outcome(r, spec_optional_string(root@, key@), |o: Option<String>| crate::model::opt_view(o)),
{
    match mapping_get(root, key) {
        Some(YamlValue::String(s)) => Ok(Some(s.clone())),
        Some(_) => Err(error3("`", key, "` must be a string")),
        None => Ok(None),
    }
}

/// The text that the field `key` of `map` must hold.
pub open spec fn spec_required_string(
    map: Seq<(YamlValue, YamlValue)>,
    key: Seq<char>,
    context: Seq<char>,
) -> Result<Seq<char>, Seq<char>> {
    match spec_mapping_get(map, key) {
        None => Err(messages::msg_field_missing(context, key)),
        Some(v) => match spec_as_str(v) {
            None => Err(messages::msg_field_not_string(context, key)),
            Some(s) => Ok(s),
        },
    }
}

/// Reads the text that the field `key` of `map` must hold.
pub fn required_string(map: &Vec<(YamlValue, YamlValue)>, key: &str, context: &str) -> (r: Result<
    String,
    ValidationError,
>)
    ensures
        outcome(r, spec_required_string(map@, key@, context@), |s: String| s@),
{
    match mapping_get(map, key) {
        None => {
            let mut m = text(context);
            m.append(" must define `");
            m.append(key);
            m.append("`");
            Err(ValidationError::new(m))
        },
        Some(v) => match as_str(v) {
            None => {
                let mut m = text(context);
                m.append(" field `");
                m.append(key);
                m.append("` must be a string");
                Err(ValidationError::new(m))
            },
            Some(s) => Ok(s.clone()),
        },
    }
}

/// One group: a mapping with a text `id` and a set of `members`.
pub open spec fn spec_group(item: YamlValue) -> Result<GroupModel, Seq<char>> {
    match spec_as_mapping(item) {
        None => Err(messages::msg_group_entry()),
        Some(m) => match spec_required_string(m, "id"@, "group"@) {
            Err(e) => Err(e),
            Ok(id) => match spec_mapping_get(m, "members"@) {
                None => Err(messages::msg_group_members_missing(id)),
                Some(mv) => match spec_string_set(mv, messages::ctx_group_members(id)) {
                    Err(e) => Err(e),
                    Ok(members) => Ok(GroupModel { id, members }),
                },
            },
        },
    }
}

/// The groups that `items` add after `acc`, in document order.
pub open spec fn spec_group_items(items: Seq<YamlValue>, acc: Seq<GroupModel>) -> Result<
    Seq<GroupModel>,
    Seq<char>,
>
    decreases items.len(),
{
    if items.len() == 0 {
        Ok(acc)
    } else {
        match spec_group(items[0]) {
            Err(e) => Err(e),
            Ok(g) => spec_group_items(items.drop_first(), acc.push(g)),
        }
    }
}

/// The groups stored under `key`: none when the key is absent.
pub open spec fn spec_groups(root: Seq<(YamlValue, YamlValue)>, key: Seq<char>) -> Result<
    Seq<GroupModel>,
    Seq<char>,
> {
    match spec_mapping_get(root, key) {
        None => Ok(Seq::empty()),
        Some(v) => match spec_as_sequence(v) {
            None => Err(messages::msg_not_sequence(key)),
            Some(items) => spec_group_items(items, Seq::empty()),
        },
    }
}

/// The model of a list of groups.
pub open spec fn groups_view(g: Vec<GroupSpec>) -> Seq<GroupModel> {
    g@.map_values(|x: GroupSpec| x@)
}

/// Reads one group.
pub fn parse_group(item: &YamlValue) -> (r: Result<GroupSpec, ValidationError>)
    ensures
        outcome(r, spec_group(*item), |g: GroupSpec| g@),
{
    let map = match as_mapping(item) {
        Some(m) => m,
        None => {
            return Err(ValidationError::new(text("group entries must be mappings")));
        },
    };
    let id = required_string(map, "id", "group")?;
    let members_value = match mapping_get(map, "members") {
        Some(v) => v,
        None => {
            return Err(error3("group `", id.as_str(), "` must define `members`"));
        },
    };
    let context = join3("group `", id.as_str(), "` members");
    let members = parse_string_set(members_value, context.as_str())?;
    Ok(GroupSpec { id, members })
}

/// Reads the groups stored under `key`.
pub fn parse_groups(root: &Vec<(YamlValue, YamlValue)>, key: &str) -> (r: Result<
    Vec<GroupSpec>,
    ValidationError,
>)
    ensures
        outcome(r, spec_groups(root@, key@), |g: Vec<GroupSpec>| groups_view(g)),
{
    let value = match mapping_get(root, key) {
        None => {
            let e: Vec<GroupSpec> = Vec::new();
            assert(groups_view(e) =~= Seq::<GroupModel>::empty());
            return Ok(e);
        },
        Some(v) => v,
    };
    let items = match as_sequence(value) {
        Some(items) => items,
        None => {
            return Err(error3("`", key, "` must be a sequence"));
        },
    };
    let mut groups: Vec<GroupSpec> = Vec::new();
    assert(groups_view(groups) =~= Seq::<GroupModel>::empty());
    let n = items.len();
    assert(items@.skip(0) =~= items@);
    for i in 0..n
        invariant
            n == items@.len(),
            spec_groups(root@, key@) == spec_group_items(items@.skip(i as int), groups_view(groups)),
    {
        assert(items@.skip(i as int)[0] == items@[i as int]);
        assert(items@.skip(i as int).drop_first() =~= items@.skip(i + 1));
        let group = parse_group(&items[i])?;
        let ghost before = groups_view(groups);
        let ghost model = group@;
        groups.push(group);
        assert(groups_view(groups) =~= before.push(model));
    }
    Ok(groups)
}

// ---- the document ----
/// The document that a YAML tree describes, or the first problem met in it.
/// Node attributes come from the `node` section and then the `pages` section;
/// a page declared in both takes its attributes from `pages`.
pub open spec fn spec_document(root: YamlValue) -> Result<DocModel, Seq<char>> {
    match spec_as_mapping(root) {
        None => Err(messages::msg_top_level()),
        Some(m) => match spec_optional_string(m, "app"@) {
            Err(e) => Err(e),
            Ok(app) => match spec_tree_section(m, "drill"@) {
                Err(e) => Err(e),
                Ok(drill) => match spec_tree_section(m, "inherit"@) {
                    Err(e) => Err(e),
                    Ok(inherit) => match spec_nav_section(m, "nav"@) {
                        Err(e) => Err(e),
                        Ok(nav) => match spec_node_section(m, "node"@, Map::empty()) {
                            Err(e) => Err(e),
                            Ok(node) => match spec_node_section(m, "pages"@, node) {
                                Err(e) => Err(e),
                                Ok(node) => match spec_groups(m, "groups"@) {
                                    Err(e) => Err(e),
                                    Ok(groups) => Ok(
                                        DocModel { app, drill, inherit, nav, node, groups },
                                    ),
                                },
                            },
                        },
                    },
                },
            },
        },
    }
}

/// Reads a document from its YAML tree.
pub fn document_from_yaml(root: &YamlValue) -> (r: Result<Document, ValidationError>)
    ensures
        outcome(r, spec_document(*root), |d: Document| d@),
{
    let root_map = match as_mapping(root) {
        Some(m) => m,
        None => {
            return Err(ValidationError::new(text("top level must be a mapping")));
        },
    };
    let app = optional_string(root_map, "app")?;
    let drill = parse_tree_section(root_map, "drill")?;
    let inherit = parse_tree_section(root_map, "inherit")?;
    let nav = parse_nav_section(root_map, "nav")?;
    let none: StrMap<NodeSpec> = StrMap::new();
    assert(nodes_view(none) =~= Map::<Seq<char>, Map<Seq<char>, AttrModel>>::empty());
    let node = parse_node_section(root_map, "node", none)?;
    let node = parse_node_section(root_map, "pages", node)?;
    let groups = parse_groups(root_map, "groups")?;
    Ok(Document { app, drill, inherit, nav, node, groups })
}

/// The error for a text that is not YAML at all, with the YAML reader's own message.
fn yaml_parse_error(detail: &str) -> (r: ValidationError)
    ensures
        r@ == messages::msg_yaml(detail@),
{
    let mut m = text("YAML parse error: ");
    m.append(detail);
    ValidationError::new(m)
}

/// The document that a `.gui` text describes, or the first problem met in it.
pub open spec fn spec_parse_text(text: Seq<char>) -> Result<DocModel, Seq<char>> {
    match yaml_read(text) {
        Ok(root) => spec_document(root),
        Err(detail) => Err(messages::msg_yaml(detail)),
    }
}

/// Reads a document from `.gui` text.
pub fn parse_document(input: &str) -> (r: Result<Document, ValidationError>)
    ensures
        outcome(r, spec_parse_text(input@), |d: Document| d@),
{
    match read_yaml(input) {
        Ok(root) => document_from_yaml(&root),
        Err(detail) => Err(yaml_parse_error(detail.as_str())),
    }
}

} // verus!
