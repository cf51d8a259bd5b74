//! Checking a document against the page rules.
//!
//! A page is an inherit leaf or a drill node; an inherit layout is an entry
//! below a root of the inherit forest that has children of its own. Every
//! inherit leaf, every inherit layout and every drill node may appear once
//! only, and no layout may be a leaf too, so that each entry below a root
//! inherits from one parent; every nav must be non-empty and target
//! pages only; a node's `nav` attribute may only name declared navs; and
//! every group member must be a page. Problems are reported in this order,
//! and within each rule in key order (document order for groups).
use vstd::prelude::*;
use crate::collections::{lemma_sorted_enum_exists, sorted_enum, StrMap, StrSet};
use crate::messages::{self, error3, error5, text};
use crate::model::{
    child_view, forest_view, lemma_forest_view, messages, section_view, AttrModel, AttrValue,
    texts, DocModel, Document, GroupModel, GroupSpec, NodeSpec, TreeChild, TreeNode, TreeSection, ValidationError,
};

verus! {

// ---- occurrences of ids in the forests ----
/// The inherit leaves found under a list of children, in traversal order: each
/// plain child, and each child with an empty list of children; the leaves of
/// deeper children in place.
pub open spec fn inherit_list(s: Seq<TreeNode>) -> Seq<Seq<char>>
    decreases s,
{
    if s.len() == 0 {
        Seq::empty()
    } else {
        inherit_list(s.drop_last()) + match s.last() {
            TreeNode::Leaf(id) => seq![id],
            TreeNode::Branch(id, kids) => {
                proof {
                    assert(decreases_to!(s => s.last()));
                    assert(decreases_to!(s.last() => kids));
                }
                inherit_head(id, kids, false) + inherit_list(kids)
            },
        }
    }
}

/// `current` itself counts as a leaf when it has no children and is not a root.
pub open spec fn inherit_head(current: Seq<char>, kids: Seq<TreeNode>, non_leaf: bool) -> Seq<
    Seq<char>,
> {
    if kids.len() == 0 && !non_leaf {
        seq![current]
    } else {
        Seq::empty()
    }
}

/// The drill nodes found under a list of children, in traversal order.
pub open spec fn drill_list(s: Seq<TreeNode>) -> Seq<Seq<char>>
    decreases s,
{
    if s.len() == 0 {
        Seq::empty()
    } else {
        drill_list(s.drop_last()) + match s.last() {
            TreeNode::Leaf(id) => seq![id],
            TreeNode::Branch(id, kids) => {
                proof {
                    assert(decreases_to!(s => s.last()));
                    assert(decreases_to!(s.last() => kids));
                }
                seq![id] + drill_list(kids)
            },
        }
    }
}

/// The inherit leaves of the roots `keys` of a section, in order.
pub open spec fn inherit_roots(keys: Seq<Seq<char>>, sec: Map<Seq<char>, Seq<TreeNode>>) -> Seq<
    Seq<char>,
>
    decreases keys.len(),
{
    if keys.len() == 0 {
        Seq::empty()
    } else {
        inherit_roots(keys.drop_last(), sec) + inherit_list(sec[keys.last()])
    }
}

/// The drill nodes under the roots `keys` of a section, the roots counted when `with_roots`.
pub open spec fn drill_roots(
    keys: Seq<Seq<char>>,
    sec: Map<Seq<char>, Seq<TreeNode>>,
    with_roots: bool,
) -> Seq<Seq<char>>
    decreases keys.len(),
{
    if keys.len() == 0 {
        Seq::empty()
    } else {
        drill_roots(keys.drop_last(), sec, with_roots) + (if with_roots {
            seq![keys.last()]
        } else {
            Seq::empty()
        }) + drill_list(sec[keys.last()])
    }
}

/// Every inherit leaf of a section, in key order.
pub open spec fn inherit_occurrences(sec: Map<Seq<char>, Seq<TreeNode>>) -> Seq<Seq<char>> {
    inherit_roots(sorted_enum(sec.dom()), sec)
}

/// Every drill node of a section, roots included, in key order.
pub open spec fn drill_occurrences(sec: Map<Seq<char>, Seq<TreeNode>>) -> Seq<Seq<char>> {
    drill_roots(sorted_enum(sec.dom()), sec, true)
}

/// The inherit layouts under a list of children, in traversal order: each
/// child that has children of its own, then the layouts beneath it.
pub open spec fn layout_list(s: Seq<TreeNode>) -> Seq<Seq<char>>
    decreases s,
{
    if s.len() == 0 {
        Seq::empty()
    } else {
        layout_list(s.drop_last()) + match s.last() {
            TreeNode::Leaf(_) => Seq::empty(),
            TreeNode::Branch(id, kids) => {
                proof {
                    assert(decreases_to!(s => s.last()));
                    assert(decreases_to!(s.last() => kids));
                }
                (if kids.len() > 0 {
                    seq![id]
                } else {
                    Seq::empty()
                }) + layout_list(kids)
            },
        }
    }
}

/// The inherit layouts beneath the roots `keys` of a section, root by root.
pub open spec fn layout_roots(keys: Seq<Seq<char>>, sec: Map<Seq<char>, Seq<TreeNode>>) -> Seq<
    Seq<char>,
>
    decreases keys.len(),
{
    if keys.len() == 0 {
        Seq::empty()
    } else {
        layout_roots(keys.drop_last(), sec) + layout_list(sec[keys.last()])
    }
}

/// Every inherit layout of a section (each entry below a root that has
/// children of its own), in key order.
pub open spec fn layout_occurrences(sec: Map<Seq<char>, Seq<TreeNode>>) -> Seq<Seq<char>> {
    layout_roots(sorted_enum(sec.dom()), sec)
}

// ---- first and repeated occurrences ----
/// Walks `occ` from `seen`: the ids seen at the end, and each occurrence of an
/// id that had been seen before it, in order.
pub open spec fn scan(seen: Set<Seq<char>>, occ: Seq<Seq<char>>) -> (Set<Seq<char>>, Seq<
    Seq<char>,
>)
    decreases occ.len(),
{
    if occ.len() == 0 {
        (seen, Seq::empty())
    } else if seen.contains(occ[0]) {
        let rest = scan(seen, occ.drop_first());
        (rest.0, seq![occ[0]] + rest.1)
    } else {
        scan(seen.insert(occ[0]), occ.drop_first())
    }
}

/// Walking two lists one after the other is walking their concatenation.
pub proof fn lemma_scan_append(seen: Set<Seq<char>>, a: Seq<Seq<char>>, b: Seq<Seq<char>>)
    ensures
        scan(seen, a + b) == (scan(scan(seen, a).0, b).0, scan(seen, a).1 + scan(
            scan(seen, a).0,
            b,
        ).1),
    decreases a.len(),
{
    if a.len() == 0 {
        assert(a + b =~= b);
        assert(scan(seen, a).1 + scan(scan(seen, a).0, b).1 =~= scan(seen, b).1);
    } else {
        assert((a + b).drop_first() =~= a.drop_first() + b);
        assert((a + b)[0] == a[0]);
        if seen.contains(a[0]) {
            lemma_scan_append(seen, a.drop_first(), b);
            assert(seq![a[0]] + (scan(seen, a.drop_first()).1 + scan(
                scan(seen, a.drop_first()).0,
                b,
            ).1) =~= (seq![a[0]] + scan(seen, a.drop_first()).1) + scan(
                scan(seen, a.drop_first()).0,
                b,
            ).1);
        } else {
            lemma_scan_append(seen.insert(a[0]), a.drop_first(), b);
        }
    }
}

/// The ids seen at the end are those seen at the start and those walked.
pub proof fn lemma_scan_seen(seen: Set<Seq<char>>, occ: Seq<Seq<char>>)
    ensures
        scan(seen, occ).0 == seen + occ.to_set(),
    decreases occ.len(),
{
    if occ.len() == 0 {
        assert(seen + occ.to_set() =~= seen);
    } else {
        if seen.contains(occ[0]) {
            lemma_scan_seen(seen, occ.drop_first());
        } else {
            lemma_scan_seen(seen.insert(occ[0]), occ.drop_first());
        }
        assert(seen + occ.to_set() =~= seen.insert(occ[0]) + occ.drop_first().to_set()) by {
            assert forall|x: Seq<char>| occ.to_set().contains(x) implies x == occ[0]
                || occ.drop_first().to_set().contains(x) by {
                let i = choose|i: int| 0 <= i < occ.len() && occ[i] == x;
                if i > 0 {
                    assert(occ.drop_first()[i - 1] == x);
                }
            }
            assert forall|x: Seq<char>| occ.drop_first().to_set().contains(x) implies occ.to_set().contains(x) by {
                let i = choose|i: int| 0 <= i < occ.drop_first().len() && occ.drop_first()[i] == x;
                assert(occ[i + 1] == x);
            }
            assert(occ.to_set().contains(occ[0]));
        }
        if seen.contains(occ[0]) {
            assert(seen.insert(occ[0]) =~= seen);
        }
    }
}

/// Walking one id.
pub proof fn lemma_scan_one(seen: Set<Seq<char>>, x: Seq<char>)
    ensures
        scan(seen, seq![x]) == (if seen.contains(x) {
            (seen, seq![x])
        } else {
            (seen.insert(x), Seq::<Seq<char>>::empty())
        }),
{
    let e = Seq::<Seq<char>>::empty();
    assert(seq![x].drop_first() =~= e);
    assert(seq![x][0] == x);
    assert(seq![x].len() == 1);
    if seen.contains(x) {
        assert(scan(seen, e) == (seen, e));
        assert(seq![x] + e =~= seq![x]);
        assert(scan(seen, seq![x]).1 == seq![x] + scan(seen, e).1);
    } else {
        assert(scan(seen.insert(x), e) == (seen.insert(x), e));
    }
}

/// A repeated occurrence is reported exactly when some id occurs twice or was seen before.
pub proof fn lemma_scan_repeats(seen: Set<Seq<char>>, occ: Seq<Seq<char>>)
    ensures
        (scan(seen, occ).1.len() == 0) <==> (occ.no_duplicates() && forall|i: int|
            0 <= i < occ.len() ==> !seen.contains(#[trigger] occ[i])),
    decreases occ.len(),
{
    if occ.len() > 0 {
        let t = occ.drop_first();
        if seen.contains(occ[0]) {
            lemma_scan_repeats(seen, t);
        } else {
            lemma_scan_repeats(seen.insert(occ[0]), t);
            if scan(seen, occ).1.len() == 0 {
                assert forall|i: int, j: int|
                    0 <= i < occ.len() && 0 <= j < occ.len() && i != j implies occ[i] != occ[j] by {
                    if i > 0 && j > 0 {
                        assert(occ[i] == t[i - 1]);
                        assert(occ[j] == t[j - 1]);
                    } else if i == 0 {
                        assert(occ[j] == t[j - 1]);
                        assert(!seen.insert(occ[0]).contains(t[j - 1]));
                    } else {
                        assert(occ[i] == t[i - 1]);
                        assert(!seen.insert(occ[0]).contains(t[i - 1]));
                    }
                }
                assert forall|i: int| 0 <= i < occ.len() implies !seen.contains(#[trigger] occ[i]) by {
                    if i > 0 {
                        assert(occ[i] == t[i - 1]);
                        assert(!seen.insert(occ[0]).contains(t[i - 1]));
                    }
                }
            }
            if occ.no_duplicates() && forall|i: int|
                0 <= i < occ.len() ==> !seen.contains(#[trigger] occ[i]) {
                assert forall|i: int| 0 <= i < t.len() implies !seen.insert(occ[0]).contains(
                    #[trigger] t[i],
                ) by {
                    assert(t[i] == occ[i + 1]);
                    assert(occ[i + 1] != occ[0]);
                    assert(!seen.contains(occ[i + 1]));
                }
                assert forall|i: int, j: int|
                    0 <= i < t.len() && 0 <= j < t.len() && i != j implies t[i] != t[j] by {
                    assert(t[i] == occ[i + 1]);
                    assert(t[j] == occ[j + 1]);
                }
            }
        }
    }
}

// ---- inherit leaves ----
/// The error for an inherit leaf met a second time.
fn inherit_repeat(id: &str) -> (r: ValidationError)
    ensures
        r@ == messages::msg_inherit_repeat(id@),
{
    error3("inherit leaf `", id, "` appears more than once")
}

/// The messages for a list of repeated inherit leaves.
pub open spec fn inherit_repeat_msgs(names: Seq<Seq<char>>) -> Seq<Seq<char>> {
    names.map_values(|x: Seq<char>| messages::msg_inherit_repeat(x))
}

/// Adds the inherit leaves under `current` to `leaves`, reporting each leaf met again.
pub fn collect_inherit_leaves_children(
    current: &str,
    children: &Vec<TreeChild>,
    leaves: &mut StrSet,
    errors: &mut Vec<ValidationError>,
    current_is_non_leaf: bool,
)
    ensures
        ({
            let occ = inherit_head(current@, forest_view(children@), current_is_non_leaf)
                + inherit_list(forest_view(children@));
            &&& final(leaves).set() == scan(old(leaves).set(), occ).0
            &&& messages(final(errors)@) == messages(old(errors)@) + inherit_repeat_msgs(
                scan(old(leaves).set(), occ).1,
            )
        }),
    decreases children@,
{
    let ghost seen0 = leaves.set();
    let ghost msgs0 = messages(errors@);
    let ghost fv = forest_view(children@);
    proof {
        lemma_forest_view(children@);
    }
    let ghost head = inherit_head(current@, fv, current_is_non_leaf);
    if children.len() == 0 && !current_is_non_leaf {
        let fresh = leaves.insert(text(current));
        if !fresh {
            errors.push(inherit_repeat(current));
        }
        proof {
            lemma_scan_one(seen0, current@);
            assert(head =~= seq![current@]);
        }
    } else {
        assert(head =~= Seq::<Seq<char>>::empty());
    }
    proof {
        assert(messages(errors@) =~= msgs0 + inherit_repeat_msgs(scan(seen0, head).1));
    }
    let n = children.len();
    assert(fv.take(0) =~= Seq::<TreeNode>::empty());
    assert(head + inherit_list(fv.take(0)) =~= head);
    for i in 0..n
        invariant
            n == children@.len(),
            fv == forest_view(children@),
            fv.len() == n,
            forall|j: int| 0 <= j < n ==> #[trigger] fv[j] == child_view(children@[j]),
            leaves.set() == scan(seen0, head + inherit_list(fv.take(i as int))).0,
            messages(errors@) == msgs0 + inherit_repeat_msgs(
                scan(seen0, head + inherit_list(fv.take(i as int))).1,
            ),
    {
        let ghost prefix = head + inherit_list(fv.take(i as int));
        let ghost seen1 = leaves.set();
        let ghost errs1 = messages(errors@);
        assert(fv.take(i + 1).drop_last() =~= fv.take(i as int));
        assert(fv.take(i + 1).last() == fv[i as int]);
        let ghost step = match fv[i as int] {
            TreeNode::Leaf(id) => seq![id],
            TreeNode::Branch(id, kids) => inherit_head(id, kids, false) + inherit_list(kids),
        };
        assert(inherit_list(fv.take(i + 1)) == inherit_list(fv.take(i as int)) + step);
        match &children[i] {
            TreeChild::Leaf(id) => {
                let fresh = leaves.insert(id.clone());
                if !fresh {
                    errors.push(inherit_repeat(id.as_str()));
                }
                proof {
                    lemma_scan_one(seen1, id@);
                }
            },
            TreeChild::Branch(id, grand_children) => {
                proof {
                    assert(decreases_to!(children@ => children@[i as int]));
                    assert(decreases_to!(children@[i as int] => *grand_children));
                    assert(decreases_to!(*grand_children => grand_children@));
                }
                collect_inherit_leaves_children(
                    id.as_str(),
                    grand_children,
                    leaves,
                    errors,
                    false,
                );
            },
        }
        proof {
            lemma_scan_append(seen0, prefix, step);
            assert(head + inherit_list(fv.take(i + 1)) =~= prefix + step);
            assert(inherit_repeat_msgs(scan(seen0, prefix + step).1) =~= inherit_repeat_msgs(
                scan(seen0, prefix).1,
            ) + inherit_repeat_msgs(scan(seen1, step).1));
            assert(messages(errors@) =~= errs1 + inherit_repeat_msgs(scan(seen1, step).1));
        }
    }
    assert(fv.take(n as int) =~= fv);
}

/// Collects the inherit leaves of a section, reporting each leaf met again.
pub fn collect_inherit_leaves(section: &TreeSection, errors: &mut Vec<ValidationError>) -> (leaves:
    StrSet)
    ensures
        leaves.set() == scan(Set::empty(), inherit_occurrences(section_view(*section))).0,
        messages(final(errors)@) == messages(old(errors)@) + inherit_repeat_msgs(
            scan(Set::empty(), inherit_occurrences(section_view(*section))).1,
        ),
{
    let mut leaves = StrSet::new();
    let ghost msgs0 = messages(errors@);
    let ghost sec = section_view(*section);
    let n = section.len();
    let ghost keys = section.keys();
    proof {
        assert(sec.dom() =~= section.map().dom());
        assert(inherit_roots(keys.take(0), sec) =~= Seq::<Seq<char>>::empty());
        assert(messages(errors@) =~= msgs0 + inherit_repeat_msgs(Seq::empty()));
    }
    for i in 0..n
        invariant
            n == keys.len(),
            keys == section.keys(),
            section.ordered(),
            sec == section_view(*section),
            leaves.set() == scan(Set::empty(), inherit_roots(keys.take(i as int), sec)).0,
            messages(errors@) == msgs0 + inherit_repeat_msgs(
                scan(Set::empty(), inherit_roots(keys.take(i as int), sec)).1,
            ),
    {
        let ghost prefix = inherit_roots(keys.take(i as int), sec);
        let ghost seen1 = leaves.set();
        let ghost errs1 = messages(errors@);
        let root = section.key_at(i);
        let children = section.value_at(i);
        assert(keys.take(i + 1).drop_last() =~= keys.take(i as int));
        assert(keys.take(i + 1).last() == keys[i as int]);
        assert(sec[keys[i as int]] == forest_view(children@));
        collect_inherit_leaves_children(root.as_str(), children, &mut leaves, errors, true);
        proof {
            let step = inherit_list(forest_view(children@));
            assert(inherit_head(root@, forest_view(children@), true) + step =~= step);
            lemma_scan_append(Set::empty(), prefix, step);
            assert(inherit_roots(keys.take(i + 1), sec) == prefix + step);
            assert(inherit_repeat_msgs(scan(Set::empty(), prefix + step).1) =~= inherit_repeat_msgs(
                scan(Set::empty(), prefix).1,
            ) + inherit_repeat_msgs(scan(seen1, step).1));
            assert(messages(errors@) =~= errs1 + inherit_repeat_msgs(scan(seen1, step).1));
        }
    }
    proof {
        assert(keys.take(n as int) =~= keys);
        assert(keys == sorted_enum(sec.dom()));
    }
    leaves
}

// ---- inherit layouts ----
/// The error for an inherit layout met a second time, or met as a leaf too.
fn layout_repeat(id: &str) -> (r: ValidationError)
    ensures
        r@ == messages::msg_layout_repeat(id@),
{
    error3("inherit layout `", id, "` appears more than once")
}

/// The messages for a list of repeated inherit layouts.
pub open spec fn layout_repeat_msgs(names: Seq<Seq<char>>) -> Seq<Seq<char>> {
    names.map_values(|x: Seq<char>| messages::msg_layout_repeat(x))
}

/// Adds `id` to `seen`, reporting it when it was there already.
fn note_layout(id: &String, seen: &mut StrSet, errors: &mut Vec<ValidationError>)
    ensures
        final(seen).set() == scan(old(seen).set(), seq![id@]).0,
        messages(final(errors)@) == messages(old(errors)@) + layout_repeat_msgs(
            scan(old(seen).set(), seq![id@]).1,
        ),
{
    let ghost seen0 = seen.set();
    let ghost msgs0 = messages(errors@);
    if !seen.insert(id.clone()) {
        errors.push(layout_repeat(id.as_str()));
    }
    proof {
        lemma_scan_one(seen0, id@);
        if seen0.contains(id@) {
            assert(seen0.insert(id@) =~= seen0);
        }
        assert(messages(errors@) =~= msgs0 + layout_repeat_msgs(scan(seen0, seq![id@]).1));
    }
}

/// Adds the inherit layouts under a list of children to `seen`, reporting each one met again.
fn collect_layouts_children(
    children: &Vec<TreeChild>,
    seen: &mut StrSet,
    errors: &mut Vec<ValidationError>,
)
    ensures
        final(seen).set() == scan(old(seen).set(), layout_list(forest_view(children@))).0,
        messages(final(errors)@) == messages(old(errors)@) + layout_repeat_msgs(
            scan(old(seen).set(), layout_list(forest_view(children@))).1,
        ),
    decreases children@,
{
    let ghost seen0 = seen.set();
    let ghost msgs0 = messages(errors@);
    let ghost fv = forest_view(children@);
    proof {
        lemma_forest_view(children@);
        assert(fv.take(0) =~= Seq::<TreeNode>::empty());
        assert(messages(errors@) =~= msgs0 + layout_repeat_msgs(Seq::empty()));
    }
    let n = children.len();
    for i in 0..n
        invariant
            n == children@.len(),
            fv == forest_view(children@),
            fv.len() == n,
            forall|j: int| 0 <= j < n ==> #[trigger] fv[j] == child_view(children@[j]),
            seen.set() == scan(seen0, layout_list(fv.take(i as int))).0,
            messages(errors@) == msgs0 + layout_repeat_msgs(
                scan(seen0, layout_list(fv.take(i as int))).1,
            ),
    {
        let ghost prefix = layout_list(fv.take(i as int));
        let ghost seen1 = seen.set();
        let ghost errs1 = messages(errors@);
        assert(fv.take(i + 1).drop_last() =~= fv.take(i as int));
        assert(fv.take(i + 1).last() == fv[i as int]);
        let ghost step = match fv[i as int] {
            TreeNode::Leaf(_) => Seq::<Seq<char>>::empty(),
            TreeNode::Branch(id, kids) => (if kids.len() > 0 {
                seq![id]
            } else {
                Seq::<Seq<char>>::empty()
            }) + layout_list(kids),
        };
        assert(layout_list(fv.take(i + 1)) == prefix + step);
        match &children[i] {
            TreeChild::Leaf(_) => {
                assert(step =~= Seq::<Seq<char>>::empty());
                assert(scan(seen1, step) == (seen1, Seq::<Seq<char>>::empty()));
                assert(errs1 + layout_repeat_msgs(Seq::empty()) =~= errs1);
            },
            TreeChild::Branch(id, nested) => {
                let ghost head: Seq<Seq<char>> = if nested@.len() > 0 {
                    seq![id@]
                } else {
                    Seq::empty()
                };
                proof {
                    lemma_forest_view(nested@);
                }
                if nested.len() > 0 {
                    note_layout(id, seen, errors);
                } else {
                    assert(scan(seen1, head) == (seen1, Seq::<Seq<char>>::empty()));
                    assert(errs1 + layout_repeat_msgs(Seq::empty()) =~= errs1);
                }
                let ghost seen2 = seen.set();
                proof {
                    assert(decreases_to!(children@ => children@[i as int]));
                    assert(decreases_to!(children@[i as int] => *nested));
                    assert(decreases_to!(*nested => nested@));
                }
                collect_layouts_children(nested, seen, errors);
                proof {
                    let body = layout_list(forest_view(nested@));
                    assert(step == head + body);
                    lemma_scan_append(seen1, head, body);
                    assert(layout_repeat_msgs(scan(seen1, step).1) =~= layout_repeat_msgs(
                        scan(seen1, head).1,
                    ) + layout_repeat_msgs(scan(seen2, body).1));
                }
            },
        }
        proof {
            lemma_scan_append(seen0, prefix, step);
            assert(layout_repeat_msgs(scan(seen0, prefix + step).1) =~= layout_repeat_msgs(
                scan(seen0, prefix).1,
            ) + layout_repeat_msgs(scan(seen1, step).1));
            assert(messages(errors@) =~= errs1 + layout_repeat_msgs(scan(seen1, step).1));
        }
    }
    assert(fv.take(n as int) =~= fv);
}

/// Reports each inherit layout of a section that was met before, as a layout
/// or as one of the inherit leaves `leaves`.
fn check_inherit_layouts(section: &TreeSection, leaves: &StrSet, errors: &mut Vec<ValidationError>)
    ensures
        messages(final(errors)@) == messages(old(errors)@) + layout_repeat_msgs(
            scan(leaves.set(), layout_occurrences(section_view(*section))).1,
        ),
{
    let mut seen = leaves.clone();
    let ghost seen0 = leaves.set();
    let ghost msgs0 = messages(errors@);
    let ghost sec = section_view(*section);
    let n = section.len();
    let ghost keys = section.keys();
    proof {
        assert(sec.dom() =~= section.map().dom());
        assert(layout_roots(keys.take(0), sec) =~= Seq::<Seq<char>>::empty());
        assert(messages(errors@) =~= msgs0 + layout_repeat_msgs(Seq::empty()));
    }
    for i in 0..n
        invariant
            n == keys.len(),
            keys == section.keys(),
            section.ordered(),
            sec == section_view(*section),
            seen.set() == scan(seen0, layout_roots(keys.take(i as int), sec)).0,
            messages(errors@) == msgs0 + layout_repeat_msgs(
                scan(seen0, layout_roots(keys.take(i as int), sec)).1,
            ),
    {
        let ghost prefix = layout_roots(keys.take(i as int), sec);
        let ghost seen1 = seen.set();
        let ghost errs1 = messages(errors@);
        let children = section.value_at(i);
        assert(keys.take(i + 1).drop_last() =~= keys.take(i as int));
        assert(keys.take(i + 1).last() == keys[i as int]);
        assert(sec[keys[i as int]] == forest_view(children@));
        collect_layouts_children(children, &mut seen, errors);
        proof {
            let step = layout_list(forest_view(children@));
            lemma_scan_append(seen0, prefix, step);
            assert(layout_roots(keys.take(i + 1), sec) =~= prefix + step);
            assert(layout_repeat_msgs(scan(seen0, prefix + step).1) =~= layout_repeat_msgs(
                scan(seen0, prefix).1,
            ) + layout_repeat_msgs(scan(seen1, step).1));
            assert(messages(errors@) =~= errs1 + layout_repeat_msgs(scan(seen1, step).1));
        }
    }
    proof {
        assert(keys.take(n as int) =~= keys);
        assert(keys == sorted_enum(sec.dom()));
    }
}

// ---- drill nodes ----
/// The error for a drill node met a second time.
fn drill_repeat(id: &str) -> (r: ValidationError)
    ensures
        r@ == messages::msg_drill_repeat(id@),
{
    error3("drill node `", id, "` appears more than once")
}

/// The messages for a list of repeated drill nodes.
pub open spec fn drill_repeat_msgs(names: Seq<Seq<char>>) -> Seq<Seq<char>> {
    names.map_values(|x: Seq<char>| messages::msg_drill_repeat(x))
}

/// Adds the drill nodes under a list of children to `out`, reporting each node met again.
pub fn collect_nodes_children(
    children: &Vec<TreeChild>,
    out: &mut StrSet,
    errors: &mut Vec<ValidationError>,
    _parent: &str,
    include_branches: bool,
)
    ensures
        final(out).set() == scan(old(out).set(), drill_list(forest_view(children@))).0,
        messages(final(errors)@) == messages(old(errors)@) + drill_repeat_msgs(
            scan(old(out).set(), drill_list(forest_view(children@))).1,
        ),
    decreases children@,
{
    let ghost seen0 = out.set();
    let ghost msgs0 = messages(errors@);
    let ghost fv = forest_view(children@);
    proof {
        lemma_forest_view(children@);
        assert(fv.take(0) =~= Seq::<TreeNode>::empty());
        assert(messages(errors@) =~= msgs0 + drill_repeat_msgs(Seq::empty()));
    }
    let n = children.len();
    for i in 0..n
        invariant
            n == children@.len(),
            fv == forest_view(children@),
            fv.len() == n,
            forall|j: int| 0 <= j < n ==> #[trigger] fv[j] == child_view(children@[j]),
            out.set() == scan(seen0, drill_list(fv.take(i as int))).0,
            messages(errors@) == msgs0 + drill_repeat_msgs(
                scan(seen0, drill_list(fv.take(i as int))).1,
            ),
    {
        let ghost prefix = drill_list(fv.take(i as int));
        let ghost seen1 = out.set();
        let ghost errs1 = messages(errors@);
        assert(fv.take(i + 1).drop_last() =~= fv.take(i as int));
        assert(fv.take(i + 1).last() == fv[i as int]);
        let ghost step = match fv[i as int] {
            TreeNode::Leaf(id) => seq![id],
            TreeNode::Branch(id, kids) => seq![id] + drill_list(kids),
        };
        assert(drill_list(fv.take(i + 1)) == prefix + step);
        match &children[i] {
            TreeChild::Leaf(id) => {
                if !out.insert(id.clone()) {
                    errors.push(drill_repeat(id.as_str()));
                }
                proof {
                    lemma_scan_one(seen1, id@);
                    if seen1.contains(id@) {
                        assert(seen1.insert(id@) =~= seen1);
                    }
                }
            },
            TreeChild::Branch(id, nested) => {
                if include_branches && !out.insert(id.clone()) {
                    errors.push(drill_repeat(id.as_str()));
                } else if !include_branches && !out.insert(id.clone()) {
                    errors.push(drill_repeat(id.as_str()));
                }
                proof {
                    lemma_scan_one(seen1, id@);
                    if seen1.contains(id@) {
                        assert(seen1.insert(id@) =~= seen1);
                    }
                    assert(out.set() == scan(seen1, seq![id@]).0);
                    assert(messages(errors@) =~= errs1 + drill_repeat_msgs(scan(seen1, seq![id@]).1));
                }
                let ghost seen2 = out.set();
                proof {
                    assert(decreases_to!(children@ => children@[i as int]));
                    assert(decreases_to!(children@[i as int] => *nested));
                    assert(decreases_to!(*nested => nested@));
                }
                collect_nodes_children(nested, out, errors, id.as_str(), include_branches);
                proof {
                    lemma_scan_append(seen1, seq![id@], drill_list(forest_view(nested@)));
                    assert(drill_repeat_msgs(scan(seen1, step).1) =~= drill_repeat_msgs(
                        scan(seen1, seq![id@]).1,
                    ) + drill_repeat_msgs(scan(seen2, drill_list(forest_view(nested@))).1));
                }
            },
        }
        proof {
            lemma_scan_append(seen0, prefix, step);
            assert(drill_repeat_msgs(scan(seen0, prefix + step).1) =~= drill_repeat_msgs(
                scan(seen0, prefix).1,
            ) + drill_repeat_msgs(scan(seen1, step).1));
            assert(messages(errors@) =~= errs1 + drill_repeat_msgs(scan(seen1, step).1));
        }
    }
    assert(fv.take(n as int) =~= fv);
}

/// Collects the drill nodes of a section, the roots too when `include_roots`,
/// reporting each node met again.
pub fn collect_all_nodes(
    section: &TreeSection,
    include_roots: bool,
    errors: &mut Vec<ValidationError>,
) -> (out: StrSet)
    ensures
        out.set() == scan(
            Set::empty(),
            drill_roots(sorted_enum(section_view(*section).dom()), section_view(*section), include_roots),
        ).0,
        messages(final(errors)@) == messages(old(errors)@) + drill_repeat_msgs(
            scan(
                Set::empty(),
                drill_roots(
                    sorted_enum(section_view(*section).dom()),
                    section_view(*section),
                    include_roots,
                ),
            ).1,
        ),
{
    let mut out = StrSet::new();
    let ghost msgs0 = messages(errors@);
    let ghost sec = section_view(*section);
    let n = section.len();
    let ghost keys = section.keys();
    proof {
        assert(sec.dom() =~= section.map().dom());
        assert(drill_roots(keys.take(0), sec, include_roots) =~= Seq::<Seq<char>>::empty());
        assert(messages(errors@) =~= msgs0 + drill_repeat_msgs(Seq::empty()));
    }
    for i in 0..n
        invariant
            n == keys.len(),
            keys == section.keys(),
            section.ordered(),
            sec == section_view(*section),
            out.set() == scan(Set::empty(), drill_roots(keys.take(i as int), sec, include_roots)).0,
            messages(errors@) == msgs0 + drill_repeat_msgs(
                scan(Set::empty(), drill_roots(keys.take(i as int), sec, include_roots)).1,
            ),
    {
        let ghost prefix = drill_roots(keys.take(i as int), sec, include_roots);
        let ghost seen1 = out.set();
        let ghost errs1 = messages(errors@);
        let root = section.key_at(i);
        let children = section.value_at(i);
        assert(keys.take(i + 1).drop_last() =~= keys.take(i as int));
        assert(keys.take(i + 1).last() == keys[i as int]);
        assert(sec[keys[i as int]] == forest_view(children@));
        let ghost head: Seq<Seq<char>> = if include_roots {
            seq![root@]
        } else {
            Seq::empty()
        };
        if include_roots && !out.insert(root.clone()) {
            errors.push(drill_repeat(root.as_str()));
        }
        proof {
            if include_roots {
                lemma_scan_one(seen1, root@);
                if seen1.contains(root@) {
                    assert(seen1.insert(root@) =~= seen1);
                }
            } else {
                assert(scan(seen1, head) == (seen1, Seq::<Seq<char>>::empty()));
            }
            assert(messages(errors@) =~= errs1 + drill_repeat_msgs(scan(seen1, head).1));
        }
        let ghost seen2 = out.set();
        collect_nodes_children(children, &mut out, errors, root.as_str(), include_roots);
        proof {
            let body = drill_list(forest_view(children@));
            let step = head + body;
            lemma_scan_append(seen1, head, body);
            lemma_scan_append(Set::empty(), prefix, step);
            assert(drill_roots(keys.take(i + 1), sec, include_roots) == prefix + step);
            assert(drill_repeat_msgs(scan(seen1, step).1) =~= drill_repeat_msgs(
                scan(seen1, head).1,
            ) + drill_repeat_msgs(scan(seen2, body).1));
            assert(drill_repeat_msgs(scan(Set::empty(), prefix + step).1) =~= drill_repeat_msgs(
                scan(Set::empty(), prefix).1,
            ) + drill_repeat_msgs(scan(seen1, step).1));
            assert(messages(errors@) =~= errs1 + drill_repeat_msgs(scan(seen1, step).1));
        }
    }
    proof {
        assert(keys.take(n as int) =~= keys);
        assert(keys == sorted_enum(sec.dom()));
    }
    out
}

// ---- pages and references ----
/// The inherit leaves of a document.
pub open spec fn inherit_leaves(d: DocModel) -> Set<Seq<char>> {
    inherit_occurrences(d.inherit).to_set()
}

/// The drill nodes of a document.
pub open spec fn drill_nodes(d: DocModel) -> Set<Seq<char>> {
    drill_occurrences(d.drill).to_set()
}

/// The pages of a document: its inherit leaves and its drill nodes.
pub open spec fn pages(d: DocModel) -> Set<Seq<char>> {
    inherit_leaves(d) + drill_nodes(d)
}

/// Which rule an absent id breaks, and who names it.
pub enum Absence {
    /// A target of the nav with this id is no page.
    NavTarget(Seq<char>),
    /// The node with this id names an undeclared nav.
    UnknownNav(Seq<char>),
    /// A member of the group with this id is no page.
    GroupMember(Seq<char>),
}

/// The message for the absent id `t`.
pub open spec fn absence_msg(kind: Absence, t: Seq<char>) -> Seq<char> {
    match kind {
        Absence::NavTarget(k) => messages::msg_nav_target(k, t),
        Absence::UnknownNav(k) => messages::msg_unknown_nav(k, t),
        Absence::GroupMember(k) => messages::msg_group_member(k, t),
    }
}

/// One message for each of `items`, in order, that `present` lacks.
pub open spec fn absent_msgs(items: Seq<Seq<char>>, present: Set<Seq<char>>, kind: Absence) -> Seq<
    Seq<char>,
>
    decreases items.len(),
{
    if items.len() == 0 {
        Seq::empty()
    } else {
        absent_msgs(items.drop_last(), present, kind) + if present.contains(items.last()) {
            Seq::<Seq<char>>::empty()
        } else {
            seq![absence_msg(kind, items.last())]
        }
    }
}

/// The problems with the navs `keys`: each empty nav, then each target that is
/// no page, in declared order.
pub open spec fn nav_errors(
    keys: Seq<Seq<char>>,
    nav: Map<Seq<char>, Seq<Seq<char>>>,
    pages: Set<Seq<char>>,
) -> Seq<Seq<char>>
    decreases keys.len(),
{
    if keys.len() == 0 {
        Seq::empty()
    } else {
        let k = keys.last();
        nav_errors(keys.drop_last(), nav, pages) + (if nav[k].len() == 0 {
            seq![messages::msg_nav_empty(k)]
        } else {
            Seq::empty()
        }) + absent_msgs(nav[k], pages, Absence::NavTarget(k))
    }
}

/// The problems with the nodes `keys`: each nav that a `nav` attribute names and that is not declared.
pub open spec fn node_errors(
    keys: Seq<Seq<char>>,
    node: Map<Seq<char>, Map<Seq<char>, AttrModel>>,
    navs: Set<Seq<char>>,
) -> Seq<Seq<char>>
    decreases keys.len(),
{
    if keys.len() == 0 {
        Seq::empty()
    } else {
        let k = keys.last();
        node_errors(keys.drop_last(), node, navs) + if node[k].dom().contains("nav"@) {
            match node[k]["nav"@] {
                AttrModel::Vector(ids) => absent_msgs(sorted_enum(ids), navs, Absence::UnknownNav(k)),
                AttrModel::Scalar(_) => Seq::empty(),
            }
        } else {
            Seq::empty()
        }
    }
}

/// The problems with the groups: each member that is no page.
pub open spec fn group_errors(groups: Seq<GroupModel>, pages: Set<Seq<char>>) -> Seq<Seq<char>>
    decreases groups.len(),
{
    if groups.len() == 0 {
        Seq::empty()
    } else {
        let g = groups.last();
        group_errors(groups.drop_last(), pages) + absent_msgs(
            sorted_enum(g.members),
            pages,
            Absence::GroupMember(g.id),
        )
    }
}

/// Every problem that checking a document reports, in order.
pub open spec fn validation_errors(d: DocModel) -> Seq<Seq<char>> {
    inherit_repeat_msgs(scan(Set::empty(), inherit_occurrences(d.inherit)).1) + layout_repeat_msgs(
        scan(inherit_leaves(d), layout_occurrences(d.inherit)).1,
    ) + drill_repeat_msgs(scan(Set::empty(), drill_occurrences(d.drill)).1) + nav_errors(sorted_enum(d.nav.dom()), d.nav, pages(d)) + node_errors(
        sorted_enum(d.node.dom()),
        d.node,
        d.nav.dom(),
    ) + group_errors(d.groups, pages(d))
}

/// Reports each target of nav `nav_id` that is no page, in declared order.
fn report_nav_targets(
    nav_id: &str,
    targets: &Vec<String>,
    pages: &StrSet,
    errors: &mut Vec<ValidationError>,
)
    ensures
        messages(final(errors)@) == messages(old(errors)@) + absent_msgs(
            texts(targets@),
            pages.set(),
            Absence::NavTarget(nav_id@),
        ),
{
    let ghost msgs0 = messages(errors@);
    let ghost kind = Absence::NavTarget(nav_id@);
    let ghost items = texts(targets@);
    let n = targets.len();
    assert(items.take(0) =~= Seq::<Seq<char>>::empty());
    assert(messages(errors@) =~= msgs0 + absent_msgs(Seq::empty(), pages.set(), kind));
    for i in 0..n
        invariant
            n == targets@.len(),
            items == texts(targets@),
            kind == Absence::NavTarget(nav_id@),
            messages(errors@) == msgs0 + absent_msgs(items.take(i as int), pages.set(), kind),
    {
        let item = &targets[i];
        assert(items.take(i + 1).drop_last() =~= items.take(i as int));
        assert(items.take(i + 1).last() == item@);
        let ghost before = messages(errors@);
        if !pages.contains(item.as_str()) {
            let e = error5("nav `", nav_id, "` target `", item.as_str(), "` must be a page");
            assert(e@ == absence_msg(kind, item@));
            errors.push(e);
            assert(messages(errors@) =~= before + seq![absence_msg(kind, item@)]);
        } else {
            assert(before + Seq::<Seq<char>>::empty() =~= before);
        }
    }
    assert(items.take(n as int) =~= items);
}

/// Reports each member of group `group_id` that is no page, in order.
fn report_group_members(
    group_id: &str,
    members: &StrSet,
    pages: &StrSet,
    errors: &mut Vec<ValidationError>,
)
    ensures
        messages(final(errors)@) == messages(old(errors)@) + absent_msgs(
            sorted_enum(members.set()),
            pages.set(),
            Absence::GroupMember(group_id@),
        ),
{
    let ghost msgs0 = messages(errors@);
    let ghost kind = Absence::GroupMember(group_id@);
    let n = members.len();
    assert(members.elems().take(0) =~= Seq::<Seq<char>>::empty());
    assert(messages(errors@) =~= msgs0 + absent_msgs(Seq::empty(), pages.set(), kind));
    for i in 0..n
        invariant
            n == members.elems().len(),
            kind == Absence::GroupMember(group_id@),
            messages(errors@) == msgs0 + absent_msgs(
                members.elems().take(i as int),
                pages.set(),
                kind,
            ),
    {
        let item = members.get(i);
        assert(members.elems().take(i + 1).drop_last() =~= members.elems().take(i as int));
        assert(members.elems().take(i + 1).last() == members.elems()[i as int]);
        let ghost before = messages(errors@);
        if !pages.contains(item.as_str()) {
            let e = error5("group `", group_id, "` member `", item.as_str(), "` must be a page");
            assert(e@ == absence_msg(kind, item@));
            errors.push(e);
            assert(messages(errors@) =~= before + seq![absence_msg(kind, item@)]);
        } else {
            assert(before + Seq::<Seq<char>>::empty() =~= before);
        }
    }
    assert(members.elems().take(n as int) =~= members.elems());
}

/// Reports each of `ids` that `navs` does not declare, as named by node `node_id`.
fn report_unknown_navs(
    node_id: &str,
    ids: &StrSet,
    navs: &StrMap<Vec<String>>,
    errors: &mut Vec<ValidationError>,
)
    ensures
        messages(final(errors)@) == messages(old(errors)@) + absent_msgs(
            sorted_enum(ids.set()),
            navs.map().dom(),
            Absence::UnknownNav(node_id@),
        ),
{
    let ghost msgs0 = messages(errors@);
    let ghost msg = Absence::UnknownNav(node_id@);
    let n = ids.len();
    assert(ids.elems().take(0) =~= Seq::<Seq<char>>::empty());
    assert(messages(errors@) =~= msgs0 + absent_msgs(Seq::empty(), navs.map().dom(), msg));
    for i in 0..n
        invariant
            n == ids.elems().len(),
            msg == Absence::UnknownNav(node_id@),
            messages(errors@) == msgs0 + absent_msgs(
                ids.elems().take(i as int),
                navs.map().dom(),
                msg,
            ),
    {
        let nav_id = ids.get(i);
        assert(ids.elems().take(i + 1).drop_last() =~= ids.elems().take(i as int));
        assert(ids.elems().take(i + 1).last() == ids.elems()[i as int]);
        let ghost before = messages(errors@);
        if !navs.contains_key(nav_id.as_str()) {
            let e = error5("node `", node_id, "` references unknown nav `", nav_id.as_str(), "`");
            assert(e@ == absence_msg(msg, nav_id@));
            errors.push(e);
            assert(messages(errors@) =~= before + seq![absence_msg(msg, nav_id@)]);
        } else {
            assert(before + Seq::<Seq<char>>::empty() =~= before);
        }
    }
    assert(ids.elems().take(n as int) =~= ids.elems());
}

/// Reports each empty nav and each nav target that is no page, in key order.
fn check_navs(nav: &StrMap<Vec<String>>, pages: &StrSet, errors: &mut Vec<ValidationError>)
    ensures
        messages(final(errors)@) == messages(old(errors)@) + nav_errors(
            sorted_enum(nav.map().dom()),
            nav.map().map_values(|v: Vec<String>| texts(v@)),
            pages.set(),
        ),
{
    let ghost msgs0 = messages(errors@);
    let ghost nm = nav.map().map_values(|v: Vec<String>| texts(v@));
    let n = nav.len();
    let ghost keys = nav.keys();
    assert(keys.take(0) =~= Seq::<Seq<char>>::empty());
    assert(messages(errors@) =~= msgs0 + nav_errors(Seq::empty(), nm, pages.set()));
    for i in 0..n
        invariant
            n == keys.len(),
            keys == nav.keys(),
            nav.ordered(),
            nm == nav.map().map_values(|v: Vec<String>| texts(v@)),
            messages(errors@) == msgs0 + nav_errors(keys.take(i as int), nm, pages.set()),
    {
        let nav_id = nav.key_at(i);
        let targets = nav.value_at(i);
        let ghost before = messages(errors@);
        assert(keys.take(i + 1).drop_last() =~= keys.take(i as int));
        assert(keys.take(i + 1).last() == keys[i as int]);
        assert(nav.map().dom().contains(keys[i as int]));
        assert(nm[nav_id@] == texts(targets@));
        let ghost head: Seq<Seq<char>> = if nm[nav_id@].len() == 0 {
            seq![messages::msg_nav_empty(nav_id@)]
        } else {
            Seq::empty()
        };
        if targets.is_empty() {
            errors.push(error3("nav `", nav_id.as_str(), "` must not be empty"));
        }
        assert(messages(errors@) =~= before + head);
        report_nav_targets(nav_id.as_str(), targets, pages, errors);
        assert(messages(errors@) =~= msgs0 + nav_errors(keys.take(i + 1), nm, pages.set()));
    }
    proof {
        assert(keys.take(n as int) =~= keys);
        assert(nm.dom() =~= nav.map().dom());
    }
}

/// Reports each nav that a node's `nav` attribute names and that is not declared, in key order.
fn check_nodes(node: &StrMap<NodeSpec>, nav: &StrMap<Vec<String>>, errors: &mut Vec<ValidationError>)
    ensures
        messages(final(errors)@) == messages(old(errors)@) + node_errors(
            sorted_enum(node.map().dom()),
            node.map().map_values(|n: NodeSpec| n@),
            nav.map().dom(),
        ),
{
    let ghost msgs0 = messages(errors@);
    let ghost nm = node.map().map_values(|n: NodeSpec| n@);
    let n = node.len();
    let ghost keys = node.keys();
    assert(keys.take(0) =~= Seq::<Seq<char>>::empty());
    assert(messages(errors@) =~= msgs0 + node_errors(Seq::empty(), nm, nav.map().dom()));
    for i in 0..n
        invariant
            n == keys.len(),
            keys == node.keys(),
            node.ordered(),
            nm == node.map().map_values(|n: NodeSpec| n@),
            messages(errors@) == msgs0 + node_errors(keys.take(i as int), nm, nav.map().dom()),
    {
        let node_id = node.key_at(i);
        let spec = node.value_at(i);
        let ghost before = messages(errors@);
        assert(keys.take(i + 1).drop_last() =~= keys.take(i as int));
        assert(keys.take(i + 1).last() == keys[i as int]);
        assert(node.map().dom().contains(keys[i as int]));
        assert(nm[node_id@] == spec@);
        match spec.attrs.get("nav") {
            Some(AttrValue::Vector(nav_ids)) => {
                assert(spec@.dom().contains("nav"@));
                report_unknown_navs(node_id.as_str(), nav_ids, nav, errors);
            },
            Some(AttrValue::Scalar(_)) => {
                assert(spec@.dom().contains("nav"@));
                assert(before + Seq::<Seq<char>>::empty() =~= before);
            },
            None => {
                assert(!spec@.dom().contains("nav"@));
                assert(before + Seq::<Seq<char>>::empty() =~= before);
            },
        }
        assert(messages(errors@) =~= msgs0 + node_errors(keys.take(i + 1), nm, nav.map().dom()));
    }
    proof {
        assert(keys.take(n as int) =~= keys);
        assert(nm.dom() =~= node.map().dom());
    }
}

/// Reports each group member that is no page, group by group.
fn check_groups(groups: &Vec<GroupSpec>, pages: &StrSet, errors: &mut Vec<ValidationError>)
    ensures
        messages(final(errors)@) == messages(old(errors)@) + group_errors(
            groups@.map_values(|g: GroupSpec| g@),
            pages.set(),
        ),
{
    let ghost msgs0 = messages(errors@);
    let ghost gm = groups@.map_values(|g: GroupSpec| g@);
    let n = groups.len();
    assert(gm.take(0) =~= Seq::<GroupModel>::empty());
    assert(messages(errors@) =~= msgs0 + group_errors(Seq::empty(), pages.set()));
    for i in 0..n
        invariant
            n == groups@.len(),
            gm == groups@.map_values(|g: GroupSpec| g@),
            messages(errors@) == msgs0 + group_errors(gm.take(i as int), pages.set()),
    {
        let group = &groups[i];
        assert(gm.take(i + 1).drop_last() =~= gm.take(i as int));
        assert(gm.take(i + 1).last() == group@);
        report_group_members(group.id.as_str(), &group.members, pages, errors);
    }
    assert(gm.take(n as int) =~= gm);
}

/// The union of two sets of ids.
fn page_union(a: &StrSet, b: &StrSet) -> (r: StrSet)
    ensures
        r.set() == a.set() + b.set(),
{
    let mut r = a.clone();
    let n = b.len();
    for i in 0..n
        invariant
            n == b.elems().len(),
            b.ordered(),
            r.set() == a.set() + b.elems().take(i as int).to_set(),
    {
        let x = b.get(i);
        r.insert(x.clone());
        assert(b.elems().take(i + 1) =~= b.elems().take(i as int).push(x@));
        proof {
            b.elems().take(i as int).lemma_push_to_set_commute(x@);
        }
        assert(r.set() =~= a.set() + b.elems().take(i + 1).to_set());
    }
    assert(b.elems().take(n as int) =~= b.elems());
    assert(r.set() =~= a.set() + b.set());
    r
}

/// Checks a document against the page rules: `Ok` when it breaks none, else
/// every problem found, in order.
pub fn validate_document(doc: &Document) -> (r: Result<(), Vec<ValidationError>>)
    ensures
        r is Ok <==> validation_errors(doc@).len() == 0,
        r is Ok <==> document_valid(doc@),
        r matches Err(es) ==> messages(es@) == validation_errors(doc@),
{
    proof {
        lemma_document_finite(*doc);
        law_valid_iff_no_errors(doc@);
    }
    let mut errors: Vec<ValidationError> = Vec::new();
    let ghost d = doc@;
    assert(messages(errors@) =~= Seq::<Seq<char>>::empty());

    let inherit_leaves = collect_inherit_leaves(&doc.inherit, &mut errors);
    proof {
        lemma_scan_seen(Set::empty(), inherit_occurrences(d.inherit));
        assert(Set::<Seq<char>>::empty() + inherit_occurrences(d.inherit).to_set()
            =~= inherit_occurrences(d.inherit).to_set());
    }
    assert(inherit_leaves.set() == self::inherit_leaves(d));
    check_inherit_layouts(&doc.inherit, &inherit_leaves, &mut errors);
    let drill_nodes = collect_all_nodes(&doc.drill, true, &mut errors);
    let pages = page_union(&inherit_leaves, &drill_nodes);
    proof {
        lemma_scan_seen(Set::empty(), drill_occurrences(d.drill));
        assert(Set::<Seq<char>>::empty() + drill_occurrences(d.drill).to_set()
            =~= drill_occurrences(d.drill).to_set());
    }
    assert(pages.set() == self::pages(d));

    let n = drill_nodes.len();
    for i in 0..n
        invariant
            n == drill_nodes.elems().len(),
            drill_nodes.ordered(),
            pages.set() == inherit_leaves.set() + drill_nodes.set(),
            messages(errors@) == inherit_repeat_msgs(
                scan(Set::empty(), inherit_occurrences(d.inherit)).1,
            ) + layout_repeat_msgs(scan(self::inherit_leaves(d), layout_occurrences(d.inherit)).1)
                + drill_repeat_msgs(scan(Set::empty(), drill_occurrences(d.drill)).1),
    {
        let node = drill_nodes.get(i);
        assert(drill_nodes.elems().to_set().contains(node@));
        if !pages.contains(node.as_str()) {
            errors.push(error3("drill node `", node.as_str(), "` must be page-like"));
        }
    }

    check_navs(&doc.nav, &pages, &mut errors);
    proof {
        assert(d.nav.dom() =~= doc.nav.map().dom());
    }
    check_nodes(&doc.node, &doc.nav, &mut errors);
    proof {
        assert(d.node.dom() =~= doc.node.map().dom());
    }
    check_groups(&doc.groups, &pages, &mut errors);
    assert(messages(errors@) =~= validation_errors(d));

    if errors.len() == 0 {
        Ok(())
    } else {
        Err(errors)
    }
}

/// The pages of a document that follows the page rules, in increasing order;
/// for a document that breaks them, every problem found, as `validate_document` reports them.
pub fn page_nodes(doc: &Document) -> (r: Result<Vec<String>, Vec<ValidationError>>)
    ensures
        r is Ok <==> document_valid(doc@),
        r matches Ok(p) ==> texts(p@) == sorted_enum(pages(doc@)),
        r matches Err(es) ==> messages(es@) == validation_errors(doc@),
{
    match validate_document(doc) {
        Err(errors) => Err(errors),
        Ok(()) => {
            let ghost d = doc@;
            let mut scratch: Vec<ValidationError> = Vec::new();
            let leaves = collect_inherit_leaves(&doc.inherit, &mut scratch);
            let nodes = collect_all_nodes(&doc.drill, true, &mut scratch);
            let pages = page_union(&leaves, &nodes);
            proof {
                lemma_scan_seen(Set::empty(), inherit_occurrences(d.inherit));
                lemma_scan_seen(Set::empty(), drill_occurrences(d.drill));
                assert(Set::<Seq<char>>::empty() + inherit_occurrences(d.inherit).to_set()
                    =~= inherit_occurrences(d.inherit).to_set());
                assert(Set::<Seq<char>>::empty() + drill_occurrences(d.drill).to_set()
                    =~= drill_occurrences(d.drill).to_set());
            }
            let mut out: Vec<String> = Vec::new();
            let n = pages.len();
            for i in 0..n
                invariant
                    n == pages.elems().len(),
                    out@.len() == i,
                    forall|j: int| 0 <= j < i ==> (#[trigger] out@[j])@ == pages.elems()[j],
            {
                out.push(pages.get(i).clone());
            }
            assert(texts(out@) =~= pages.elems());
            Ok(out)
        },
    }
}

// ---- what a valid document is ----
/// Every set and map of the model is finite, as those of any document are.
pub open spec fn model_finite(d: DocModel) -> bool {
    &&& d.drill.dom().finite()
    &&& d.inherit.dom().finite()
    &&& d.nav.dom().finite()
    &&& d.node.dom().finite()
    &&& forall|k: Seq<char>|
        d.node.dom().contains(k) && (#[trigger] d.node[k]).dom().contains("nav"@) ==> (
        d.node[k]["nav"@] matches AttrModel::Vector(ids) ==> ids.finite())
    &&& forall|i: int| 0 <= i < d.groups.len() ==> (#[trigger] d.groups[i]).members.finite()
}

/// A nav's targets are fine: there is at least one, and each is a page.
pub open spec fn targets_ok(targets: Seq<Seq<char>>, pages: Set<Seq<char>>) -> bool {
    targets.len() > 0 && forall|i: int| 0 <= i < targets.len() ==> pages.contains(#[trigger] targets[i])
}

/// The page rules: no inherit leaf, no inherit layout and no drill node
/// appears twice, and no inherit layout is an inherit leaf too (so each entry
/// of the inherit forest has one parent at most); every nav is non-empty and
/// targets pages only; every nav that a node's `nav` attribute names is
/// declared; every group member is a page.
pub open spec fn document_valid(d: DocModel) -> bool {
    &&& inherit_occurrences(d.inherit).no_duplicates()
    &&& layout_occurrences(d.inherit).no_duplicates()
    &&& forall|i: int|
        0 <= i < layout_occurrences(d.inherit).len() ==> !inherit_leaves(d).contains(
            #[trigger] layout_occurrences(d.inherit)[i],
        )
    &&& drill_occurrences(d.drill).no_duplicates()
    &&& forall|k: Seq<char>| d.nav.dom().contains(k) ==> targets_ok(#[trigger] d.nav[k], pages(d))
    &&& forall|k: Seq<char>|
        d.node.dom().contains(k) && (#[trigger] d.node[k]).dom().contains("nav"@) ==> (
        d.node[k]["nav"@] matches AttrModel::Vector(ids) ==> ids.subset_of(d.nav.dom()))
    &&& forall|i: int| 0 <= i < d.groups.len() ==> (#[trigger] d.groups[i]).members.subset_of(
        pages(d),
    )
}

proof fn lemma_absent_msgs_empty(items: Seq<Seq<char>>, present: Set<Seq<char>>, kind: Absence)
    ensures
        absent_msgs(items, present, kind).len() == 0 <==> forall|i: int|
            0 <= i < items.len() ==> present.contains(#[trigger] items[i]),
    decreases items.len(),
{
    if items.len() > 0 {
        lemma_absent_msgs_empty(items.drop_last(), present, kind);
        if absent_msgs(items, present, kind).len() == 0 {
            assert forall|i: int| 0 <= i < items.len() implies present.contains(#[trigger] items[i]) by {
                if i < items.len() - 1 {
                    assert(items[i] == items.drop_last()[i]);
                }
            }
        }
        if forall|i: int| 0 <= i < items.len() ==> present.contains(#[trigger] items[i]) {
            assert forall|i: int| 0 <= i < items.drop_last().len() implies present.contains(
                #[trigger] items.drop_last()[i],
            ) by {
                assert(items.drop_last()[i] == items[i]);
            }
            assert(present.contains(items[items.len() - 1]));
        }
    }
}

proof fn lemma_absent_sorted(set: Set<Seq<char>>, present: Set<Seq<char>>, kind: Absence)
    requires
        set.finite(),
    ensures
        absent_msgs(sorted_enum(set), present, kind).len() == 0 <==> set.subset_of(present),
        sorted_enum(set).len() == 0 <==> set == Set::<Seq<char>>::empty(),
{
    lemma_sorted_enum_exists(set);
    let e = sorted_enum(set);
    lemma_absent_msgs_empty(e, present, kind);
    if set.subset_of(present) {
        assert forall|i: int| 0 <= i < e.len() implies present.contains(#[trigger] e[i]) by {
            assert(e.to_set().contains(e[i]));
        }
    }
    if forall|i: int| 0 <= i < e.len() ==> present.contains(#[trigger] e[i]) {
        assert forall|x: Seq<char>| set.contains(x) implies present.contains(x) by {
            assert(e.to_set().contains(x));
            let i = choose|i: int| 0 <= i < e.len() && e[i] == x;
        }
    }
    if e.len() == 0 {
        assert(e.to_set() =~= Set::<Seq<char>>::empty());
    }
    if set == Set::<Seq<char>>::empty() && e.len() > 0 {
        assert(e.to_set().contains(e[0]));
    }
}

proof fn lemma_nav_errors_empty(
    keys: Seq<Seq<char>>,
    nav: Map<Seq<char>, Seq<Seq<char>>>,
    pages: Set<Seq<char>>,
)
    ensures
        nav_errors(keys, nav, pages).len() == 0 <==> forall|i: int|
            0 <= i < keys.len() ==> targets_ok(#[trigger] nav[keys[i]], pages),
    decreases keys.len(),
{
    if keys.len() > 0 {
        let k = keys.last();
        let t = keys.drop_last();
        lemma_absent_msgs_empty(nav[k], pages, Absence::NavTarget(k));
        lemma_nav_errors_empty(t, nav, pages);
        assert(nav[keys[keys.len() - 1]] == nav[k]);
        if nav_errors(keys, nav, pages).len() == 0 {
            assert forall|i: int| 0 <= i < keys.len() implies targets_ok(#[trigger] nav[keys[i]], pages) by {
                if i < keys.len() - 1 {
                    assert(keys[i] == t[i]);
                }
            }
        }
        if forall|i: int| 0 <= i < keys.len() ==> targets_ok(#[trigger] nav[keys[i]], pages) {
            assert forall|i: int| 0 <= i < t.len() implies targets_ok(#[trigger] nav[t[i]], pages) by {
                assert(t[i] == keys[i]);
            }
            assert(targets_ok(nav[keys[keys.len() - 1]], pages));
        }
    }
}

/// Whether the `nav` attribute of `attrs`, if it lists navs, lists declared ones only.
pub open spec fn node_navs_declared(attrs: Map<Seq<char>, AttrModel>, navs: Set<Seq<char>>) -> bool {
    attrs.dom().contains("nav"@) ==> (attrs["nav"@] matches AttrModel::Vector(ids)
        ==> ids.subset_of(navs))
}

proof fn lemma_node_errors_empty(
    keys: Seq<Seq<char>>,
    node: Map<Seq<char>, Map<Seq<char>, AttrModel>>,
    navs: Set<Seq<char>>,
)
    requires
        forall|i: int|
            0 <= i < keys.len() && (#[trigger] node[keys[i]]).dom().contains("nav"@) ==> (
            node[keys[i]]["nav"@] matches AttrModel::Vector(ids) ==> ids.finite()),
    ensures
        node_errors(keys, node, navs).len() == 0 <==> forall|i: int|
            0 <= i < keys.len() ==> node_navs_declared(#[trigger] node[keys[i]], navs),
    decreases keys.len(),
{
    if keys.len() > 0 {
        let k = keys.last();
        let t = keys.drop_last();
        assert forall|i: int|
            0 <= i < t.len() && (#[trigger] node[t[i]]).dom().contains("nav"@) implies (
            node[t[i]]["nav"@] matches AttrModel::Vector(ids) ==> ids.finite()) by {
            assert(t[i] == keys[i]);
        }
        lemma_node_errors_empty(t, node, navs);
        assert(node[keys[keys.len() - 1]] == node[k]);
        if node[k].dom().contains("nav"@) {
            if let AttrModel::Vector(ids) = node[k]["nav"@] {
                lemma_absent_sorted(ids, navs, Absence::UnknownNav(k));
            }
        }
        if node_errors(keys, node, navs).len() == 0 {
            assert forall|i: int| 0 <= i < keys.len() implies node_navs_declared(
                #[trigger] node[keys[i]],
                navs,
            ) by {
                if i < keys.len() - 1 {
                    assert(keys[i] == t[i]);
                }
            }
        }
        if forall|i: int| 0 <= i < keys.len() ==> node_navs_declared(#[trigger] node[keys[i]], navs) {
            assert forall|i: int| 0 <= i < t.len() implies node_navs_declared(
                #[trigger] node[t[i]],
                navs,
            ) by {
                assert(t[i] == keys[i]);
            }
            assert(node_navs_declared(node[keys[keys.len() - 1]], navs));
        }
    }
}

proof fn lemma_group_errors_empty(groups: Seq<GroupModel>, pages: Set<Seq<char>>)
    requires
        forall|i: int| 0 <= i < groups.len() ==> (#[trigger] groups[i]).members.finite(),
    ensures
        group_errors(groups, pages).len() == 0 <==> forall|i: int|
            0 <= i < groups.len() ==> (#[trigger] groups[i]).members.subset_of(pages),
    decreases groups.len(),
{
    if groups.len() > 0 {
        let g = groups.last();
        let t = groups.drop_last();
        assert forall|i: int| 0 <= i < t.len() implies (#[trigger] t[i]).members.finite() by {
            assert(t[i] == groups[i]);
        }
        lemma_group_errors_empty(t, pages);
        assert(groups[groups.len() - 1] == g);
        lemma_absent_sorted(g.members, pages, Absence::GroupMember(g.id));
        if group_errors(groups, pages).len() == 0 {
            assert forall|i: int| 0 <= i < groups.len() implies (#[trigger] groups[i]).members.subset_of(pages) by {
                if i < groups.len() - 1 {
                    assert(groups[i] == t[i]);
                }
            }
        }
        if forall|i: int| 0 <= i < groups.len() ==> (#[trigger] groups[i]).members.subset_of(pages) {
            assert forall|i: int| 0 <= i < t.len() implies (#[trigger] t[i]).members.subset_of(pages) by {
                assert(t[i] == groups[i]);
            }
            assert(groups[groups.len() - 1].members.subset_of(pages));
        }
    }
}

/// A document checks out, with no problem reported, exactly when it follows
/// the page rules.
pub proof fn law_valid_iff_no_errors(d: DocModel)
    requires
        model_finite(d),
    ensures
        validation_errors(d).len() == 0 <==> document_valid(d),
{
    lemma_scan_repeats(Set::empty(), inherit_occurrences(d.inherit));
    lemma_scan_repeats(inherit_leaves(d), layout_occurrences(d.inherit));
    lemma_scan_repeats(Set::empty(), drill_occurrences(d.drill));
    let nk = sorted_enum(d.nav.dom());
    lemma_sorted_enum_exists(d.nav.dom());
    lemma_nav_errors_empty(nk, d.nav, pages(d));
    let ok = sorted_enum(d.node.dom());
    lemma_sorted_enum_exists(d.node.dom());
    assert forall|i: int|
        0 <= i < ok.len() && (#[trigger] d.node[ok[i]]).dom().contains("nav"@) implies (
        d.node[ok[i]]["nav"@] matches AttrModel::Vector(ids) ==> ids.finite()) by {
        assert(ok.to_set().contains(ok[i]));
    }
    lemma_node_errors_empty(ok, d.node, d.nav.dom());
    lemma_group_errors_empty(d.groups, pages(d));
    let navs_ok = forall|k: Seq<char>|
        d.nav.dom().contains(k) ==> targets_ok(#[trigger] d.nav[k], pages(d));
    let navs_ok_seq = forall|i: int| 0 <= i < nk.len() ==> targets_ok(#[trigger] d.nav[nk[i]], pages(d));
    if navs_ok_seq {
        assert forall|k: Seq<char>| d.nav.dom().contains(k) implies targets_ok(#[trigger] d.nav[k], pages(d)) by {
            assert(nk.to_set().contains(k));
            let i = choose|i: int| 0 <= i < nk.len() && nk[i] == k;
        }
    }
    if navs_ok {
        assert forall|i: int| 0 <= i < nk.len() implies targets_ok(#[trigger] d.nav[nk[i]], pages(d)) by {
            assert(nk.to_set().contains(nk[i]));
        }
    }
    let nodes_ok = forall|k: Seq<char>|
        d.node.dom().contains(k) && (#[trigger] d.node[k]).dom().contains("nav"@) ==> (
        d.node[k]["nav"@] matches AttrModel::Vector(ids) ==> ids.subset_of(d.nav.dom()));
    let nodes_ok_seq = forall|i: int|
        0 <= i < ok.len() ==> node_navs_declared(#[trigger] d.node[ok[i]], d.nav.dom());
    if nodes_ok_seq {
        assert forall|k: Seq<char>|
            d.node.dom().contains(k) && (#[trigger] d.node[k]).dom().contains("nav"@) implies (
            d.node[k]["nav"@] matches AttrModel::Vector(ids) ==> ids.subset_of(d.nav.dom())) by {
            assert(ok.to_set().contains(k));
            let i = choose|i: int| 0 <= i < ok.len() && ok[i] == k;
            assert(node_navs_declared(d.node[ok[i]], d.nav.dom()));
        }
    }
    if nodes_ok {
        assert forall|i: int| 0 <= i < ok.len() implies node_navs_declared(
            #[trigger] d.node[ok[i]],
            d.nav.dom(),
        ) by {
            assert(ok.to_set().contains(ok[i]));
        }
    }
}

/// The model of any document is finite.
pub proof fn lemma_document_finite(doc: Document)
    ensures
        model_finite(doc@),
{
    let d = doc@;
    doc.drill.lemma_dom_finite();
    doc.inherit.lemma_dom_finite();
    doc.nav.lemma_dom_finite();
    doc.node.lemma_dom_finite();
    assert(d.drill.dom() =~= doc.drill.map().dom());
    assert(d.inherit.dom() =~= doc.inherit.map().dom());
    assert(d.nav.dom() =~= doc.nav.map().dom());
    assert(d.node.dom() =~= doc.node.map().dom());
    assert forall|k: Seq<char>|
        d.node.dom().contains(k) && (#[trigger] d.node[k]).dom().contains("nav"@) implies (
        d.node[k]["nav"@] matches AttrModel::Vector(ids) ==> ids.finite()) by {
        let a = doc.node.map()[k].attrs.map()["nav"@];
        if let AttrValue::Vector(s) = a {
            s.lemma_set_finite();
        }
    }
    assert forall|i: int| 0 <= i < d.groups.len() implies (#[trigger] d.groups[i]).members.finite() by {
        doc.groups@[i].members.lemma_set_finite();
    }
}

/// Whether `id` names an entry of a list of entries, at any depth: a plain
/// entry, or an entry with its own list of children (empty or not).
pub open spec fn names_entry(nodes: Seq<TreeNode>, id: Seq<char>) -> bool
    decreases nodes,
{
    if nodes.len() == 0 {
        false
    } else {
        names_entry(nodes.drop_last(), id) || match nodes.last() {
            TreeNode::Leaf(x) => x == id,
            TreeNode::Branch(x, kids) => {
                proof {
                    assert(decreases_to!(nodes => nodes.last()));
                    assert(decreases_to!(nodes.last() => kids));
                }
                x == id || names_entry(kids, id)
            },
        }
    }
}

proof fn lemma_drill_list_names(nodes: Seq<TreeNode>, id: Seq<char>)
    requires
        names_entry(nodes, id),
    ensures
        drill_list(nodes).contains(id),
    decreases nodes,
{
    let t = nodes.drop_last();
    if names_entry(t, id) {
        lemma_drill_list_names(t, id);
        let i = choose|i: int| 0 <= i < drill_list(t).len() && drill_list(t)[i] == id;
        let step = drill_list(nodes).skip(drill_list(t).len() as int);
        assert(drill_list(nodes) =~= drill_list(t) + step);
        assert(drill_list(nodes)[i] == id);
    } else {
        match nodes.last() {
            TreeNode::Leaf(x) => {
                assert(drill_list(nodes) =~= drill_list(t) + seq![x]);
                assert(drill_list(nodes)[drill_list(t).len() as int] == id);
            },
            TreeNode::Branch(x, kids) => {
                assert(drill_list(nodes) =~= drill_list(t) + (seq![x] + drill_list(kids)));
                if x == id {
                    assert(drill_list(nodes)[drill_list(t).len() as int] == id);
                } else {
                    assert(decreases_to!(nodes => nodes.last()));
                    lemma_drill_list_names(kids, id);
                    let j = choose|j: int| 0 <= j < drill_list(kids).len() && drill_list(kids)[j] == id;
                    assert(drill_list(nodes)[drill_list(t).len() + 1 + j] == id);
                }
            },
        }
    }
}

proof fn lemma_drill_roots_cover(
    keys: Seq<Seq<char>>,
    sec: Map<Seq<char>, Seq<TreeNode>>,
    k: Seq<char>,
    id: Seq<char>,
)
    requires
        keys.contains(k),
        id == k || names_entry(sec[k], id),
    ensures
        drill_roots(keys, sec, true).contains(id),
    decreases keys.len(),
{
    let t = keys.drop_last();
    let last = keys.last();
    let tail = seq![last] + drill_list(sec[last]);
    assert(drill_roots(keys, sec, true) =~= drill_roots(t, sec, true) + tail);
    if t.contains(k) {
        lemma_drill_roots_cover(t, sec, k, id);
        let i = choose|i: int| 0 <= i < drill_roots(t, sec, true).len() && drill_roots(t, sec, true)[i] == id;
        assert(drill_roots(keys, sec, true)[i] == id);
    } else {
        let i = choose|i: int| 0 <= i < keys.len() && keys[i] == k;
        if i < keys.len() - 1 {
            assert(t[i] == k);
        }
        assert(last == k);
        let base = drill_roots(t, sec, true).len() as int;
        if id == k {
            assert(drill_roots(keys, sec, true)[base] == id);
        } else {
            lemma_drill_list_names(sec[k], id);
            let j = choose|j: int| 0 <= j < drill_list(sec[k]).len() && drill_list(sec[k])[j] == id;
            assert(drill_roots(keys, sec, true)[base + 1 + j] == id);
        }
    }
}

/// Every root of the drill forest, and every entry beneath one at any depth
/// (plain, or with a list of children, empty or not), is a drill node and so
/// a page.
pub proof fn law_drill_entries_are_pages(d: DocModel, root: Seq<char>, id: Seq<char>)
    requires
        model_finite(d),
        d.drill.dom().contains(root),
        id == root || names_entry(d.drill[root], id),
    ensures
        drill_nodes(d).contains(id),
        pages(d).contains(id),
{
    lemma_sorted_enum_exists(d.drill.dom());
    let keys = sorted_enum(d.drill.dom());
    assert(keys.to_set().contains(root));
    lemma_drill_roots_cover(keys, d.drill, root, id);
    let i = choose|i: int| 0 <= i < drill_occurrences(d.drill).len() && drill_occurrences(d.drill)[i] == id;
    assert(drill_occurrences(d.drill).to_set().contains(id));
}

/// Whether `id` names a leaf of a list of entries below an inherit root, at
/// any depth: a plain entry, or an entry with an empty list of children.
pub open spec fn names_leaf(nodes: Seq<TreeNode>, id: Seq<char>) -> bool
    decreases nodes,
{
    if nodes.len() == 0 {
        false
    } else {
        names_leaf(nodes.drop_last(), id) || match nodes.last() {
            TreeNode::Leaf(x) => x == id,
            TreeNode::Branch(x, kids) => {
                proof {
                    assert(decreases_to!(nodes => nodes.last()));
                    assert(decreases_to!(nodes.last() => kids));
                }
                (kids.len() == 0 && x == id) || names_leaf(kids, id)
            },
        }
    }
}

proof fn lemma_inherit_list_names(nodes: Seq<TreeNode>, id: Seq<char>)
    requires
        names_leaf(nodes, id),
    ensures
        inherit_list(nodes).contains(id),
    decreases nodes,
{
    let t = nodes.drop_last();
    if names_leaf(t, id) {
        lemma_inherit_list_names(t, id);
        let i = choose|i: int| 0 <= i < inherit_list(t).len() && inherit_list(t)[i] == id;
        let step = inherit_list(nodes).skip(inherit_list(t).len() as int);
        assert(inherit_list(nodes) =~= inherit_list(t) + step);
        assert(inherit_list(nodes)[i] == id);
    } else {
        match nodes.last() {
            TreeNode::Leaf(x) => {
                assert(inherit_list(nodes) =~= inherit_list(t) + seq![x]);
                assert(inherit_list(nodes)[inherit_list(t).len() as int] == id);
            },
            TreeNode::Branch(x, kids) => {
                assert(inherit_list(nodes) =~= inherit_list(t) + (inherit_head(x, kids, false)
                    + inherit_list(kids)));
                if kids.len() == 0 && x == id {
                    assert(inherit_head(x, kids, false) =~= seq![x]);
                    assert(inherit_list(nodes)[inherit_list(t).len() as int] == id);
                } else {
                    assert(decreases_to!(nodes => nodes.last()));
                    lemma_inherit_list_names(kids, id);
                    let h = inherit_head(x, kids, false).len() as int;
                    let j = choose|j: int| 0 <= j < inherit_list(kids).len() && inherit_list(kids)[j] == id;
                    assert(inherit_list(nodes)[inherit_list(t).len() + h + j] == id);
                }
            },
        }
    }
}

proof fn lemma_inherit_roots_cover(
    keys: Seq<Seq<char>>,
    sec: Map<Seq<char>, Seq<TreeNode>>,
    k: Seq<char>,
    id: Seq<char>,
)
    requires
        keys.contains(k),
        names_leaf(sec[k], id),
    ensures
        inherit_roots(keys, sec).contains(id),
    decreases keys.len(),
{
    let t = keys.drop_last();
    let last = keys.last();
    assert(inherit_roots(keys, sec) =~= inherit_roots(t, sec) + inherit_list(sec[last]));
    if t.contains(k) {
        lemma_inherit_roots_cover(t, sec, k, id);
        let i = choose|i: int| 0 <= i < inherit_roots(t, sec).len() && inherit_roots(t, sec)[i] == id;
        assert(inherit_roots(keys, sec)[i] == id);
    } else {
        let i = choose|i: int| 0 <= i < keys.len() && keys[i] == k;
        if i < keys.len() - 1 {
            assert(t[i] == k);
        }
        assert(last == k);
        lemma_inherit_list_names(sec[k], id);
        let j = choose|j: int| 0 <= j < inherit_list(sec[k]).len() && inherit_list(sec[k])[j] == id;
        assert(inherit_roots(keys, sec)[inherit_roots(t, sec).len() + j] == id);
    }
}

/// Every leaf below an inherit root, at any depth (a plain entry, or one
/// with an empty list of children), is an inherit leaf and so a page.
pub proof fn law_inherit_leaves_are_pages(d: DocModel, root: Seq<char>, id: Seq<char>)
    requires
        model_finite(d),
        d.inherit.dom().contains(root),
        names_leaf(d.inherit[root], id),
    ensures
        inherit_leaves(d).contains(id),
        pages(d).contains(id),
{
    lemma_sorted_enum_exists(d.inherit.dom());
    let keys = sorted_enum(d.inherit.dom());
    assert(keys.to_set().contains(root));
    lemma_inherit_roots_cover(keys, d.inherit, root, id);
    let i = choose|i: int| 0 <= i < inherit_occurrences(d.inherit).len() && inherit_occurrences(d.inherit)[i] == id;
    assert(inherit_occurrences(d.inherit).to_set().contains(id));
}

/// Every drill node is a page: the check that a drill node is page-like never fails.
pub proof fn law_drill_nodes_are_pages(d: DocModel)
    ensures
        drill_nodes(d).subset_of(pages(d)),
{
}

} // verus!
