//! The lines that show a forest section: each root in key order, then the
//! entries beneath it in pre-order, indented two spaces for each level.
use vstd::prelude::*;
use crate::collections::sorted_enum;
use crate::model::{child_view, forest_view, lemma_forest_view, section_view, texts, TreeChild, TreeNode, TreeSection};

verus! {

/// Two spaces for each level of depth.
pub open spec fn indent(depth: nat) -> Seq<char>
    decreases depth,
{
    if depth == 0 {
        Seq::empty()
    } else {
        indent((depth - 1) as nat) + "  "@
    }
}

/// The lines that show a list of entries at `depth`: each entry's id behind
/// its indent, followed at once by the lines of its own entries one level deeper.
pub open spec fn forest_lines(nodes: Seq<TreeNode>, depth: nat) -> Seq<Seq<char>>
    decreases nodes,
{
    if nodes.len() == 0 {
        Seq::empty()
    } else {
        forest_lines(nodes.drop_last(), depth) + match nodes.last() {
            TreeNode::Leaf(id) => seq![indent(depth) + id],
            TreeNode::Branch(id, kids) => {
                proof {
                    assert(decreases_to!(nodes => nodes.last()));
                    assert(decreases_to!(nodes.last() => kids));
                }
                seq![indent(depth) + id] + forest_lines(kids, depth + 1)
            },
        }
    }
}

/// The lines that show the roots `keys` of a section: each root unindented,
/// then its entries from depth one.
pub open spec fn section_lines(keys: Seq<Seq<char>>, sec: Map<Seq<char>, Seq<TreeNode>>) -> Seq<
    Seq<char>,
>
    decreases keys.len(),
{
    if keys.len() == 0 {
        Seq::empty()
    } else {
        section_lines(keys.drop_last(), sec) + seq![keys.last()] + forest_lines(
            sec[keys.last()],
            1,
        )
    }
}

/// Adds to `out` the lines that show `children` at `depth`, whose indent is `prefix`.
fn render_children(
    children: &Vec<TreeChild>,
    prefix: &str,
    Ghost(depth): Ghost<nat>,
    out: &mut Vec<String>,
)
    requires
        prefix@ == indent(depth),
    ensures
        texts(final(out)@) == texts(old(out)@) + forest_lines(forest_view(children@), depth),
    decreases children@,
{
    let ghost out0 = texts(out@);
    let ghost fv = forest_view(children@);
    proof {
        lemma_forest_view(children@);
        assert(fv.take(0) =~= Seq::<TreeNode>::empty());
        assert(texts(out@) =~= out0 + forest_lines(fv.take(0), depth));
    }
    let n = children.len();
    for i in 0..n
        invariant
            n == children@.len(),
            fv == forest_view(children@),
            fv.len() == n,
            forall|j: int| 0 <= j < n ==> #[trigger] fv[j] == child_view(children@[j]),
            prefix@ == indent(depth),
            texts(out@) == out0 + forest_lines(fv.take(i as int), depth),
    {
        let ghost before = texts(out@);
        assert(fv.take(i + 1).drop_last() =~= fv.take(i as int));
        assert(fv.take(i + 1).last() == fv[i as int]);
        match &children[i] {
            TreeChild::Leaf(id) => {
                let mut line = String::from_str(prefix);
                line.append(id.as_str());
                out.push(line);
                assert(texts(out@) =~= before + seq![indent(depth) + id@]);
            },
            TreeChild::Branch(id, nested) => {
                let mut line = String::from_str(prefix);
                line.append(id.as_str());
                out.push(line);
                assert(texts(out@) =~= before + seq![indent(depth) + id@]);
                let mut deeper = String::from_str(prefix);
                deeper.append("  ");
                proof {
                    assert(decreases_to!(children@ => children@[i as int]));
                    assert(decreases_to!(children@[i as int] => *nested));
                    assert(decreases_to!(*nested => nested@));
                }
                render_children(nested, deeper.as_str(), Ghost(depth + 1), out);
                assert(texts(out@) =~= before + (seq![indent(depth) + id@] + forest_lines(
                    forest_view(nested@),
                    depth + 1,
                )));
            },
        }
        assert(texts(out@) =~= out0 + forest_lines(fv.take(i + 1), depth));
    }
    assert(fv.take(n as int) =~= fv);
}

/// The lines that show a forest section: each root in key order, unindented,
/// then the entries beneath it in pre-order, two spaces deeper for each level.
pub fn render_tree_section(section: &TreeSection) -> (r: Vec<String>)
    ensures
        texts(r@) == section_lines(
            sorted_enum(section_view(*section).dom()),
            section_view(*section),
        ),
{
    let mut out: Vec<String> = Vec::new();
    let ghost sec = section_view(*section);
    let ghost keys = section.keys();
    let n = section.len();
    proof {
        assert(sec.dom() =~= section.map().dom());
        assert(keys.take(0) =~= Seq::<Seq<char>>::empty());
        assert(texts(out@) =~= section_lines(keys.take(0), sec));
    }
    for i in 0..n
        invariant
            n == keys.len(),
            keys == section.keys(),
            section.ordered(),
            sec == section_view(*section),
            texts(out@) == section_lines(keys.take(i as int), sec),
    {
        let root = section.key_at(i);
        let children = section.value_at(i);
        let ghost before = texts(out@);
        assert(keys.take(i + 1).drop_last() =~= keys.take(i as int));
        assert(keys.take(i + 1).last() == keys[i as int]);
        assert(sec[keys[i as int]] == forest_view(children@));
        out.push(root.clone());
        assert(texts(out@) =~= before + seq![root@]);
        proof {
            reveal_with_fuel(indent, 2);
            assert(indent(0) + "  "@ =~= "  "@);
        }
        render_children(children, "  ", Ghost(1), &mut out);
        assert(texts(out@) =~= section_lines(keys.take(i + 1), sec));
    }
    proof {
        assert(keys.take(n as int) =~= keys);
        assert(keys == sorted_enum(sec.dom()));
    }
    out
}

} // verus!
