//! The document that a `.gui` file describes, and its mathematical model.
use vstd::prelude::*;
use crate::collections::{StrMap, StrSet};

verus! {

/// A child in one of the two forests: a plain page id, or an id with children.
#[derive(Debug, PartialEq, Eq)]
pub enum TreeChild {
    Leaf(String),
    Branch(String, Vec<TreeChild>),
}

/// The model of a `TreeChild`.
pub enum TreeNode {
    Leaf(Seq<char>),
    Branch(Seq<char>, Seq<TreeNode>),
}

/// The model of one child.
pub open spec fn child_view(c: TreeChild) -> TreeNode
    decreases c,
{
    match c {
        TreeChild::Leaf(s) => TreeNode::Leaf(s@),
        TreeChild::Branch(s, kids) => {
            proof {
                assert(decreases_to!(c => kids));
                assert(decreases_to!(kids => kids@));
            }
            TreeNode::Branch(s@, forest_view(kids@))
        },
    }
}

/// The model of a list of children.
pub open spec fn forest_view(s: Seq<TreeChild>) -> Seq<TreeNode>
    decreases s,
{
    if s.len() == 0 {
        Seq::empty()
    } else {
        forest_view(s.drop_last()).push(child_view(s.last()))
    }
}

/// The model of a list of children holds the model of each child, in place.
pub proof fn lemma_forest_view(s: Seq<TreeChild>)
    ensures
        forest_view(s).len() == s.len(),
        forall|i: int| 0 <= i < s.len() ==> #[trigger] forest_view(s)[i] == child_view(s[i]),
    decreases s.len(),
{
    if s.len() > 0 {
        lemma_forest_view(s.drop_last());
    }
}

/// A copy of a list of children.
pub fn clone_children(v: &Vec<TreeChild>) -> (r: Vec<TreeChild>)
    ensures
        forest_view(r@) == forest_view(v@),
    decreases v@,
{
    let mut out: Vec<TreeChild> = Vec::new();
    let n = v.len();
    proof {
        lemma_forest_view(v@);
    }
    for i in 0..n
        invariant
            n == v@.len(),
            out@.len() == i,
            forall|j: int| 0 <= j < i ==> child_view(#[trigger] out@[j]) == child_view(v@[j]),
    {
        let c = match &v[i] {
            TreeChild::Leaf(s) => TreeChild::Leaf(s.clone()),
            TreeChild::Branch(s, kids) => {
                proof {
                    assert(decreases_to!(v@ => v@[i as int]));
                }
                TreeChild::Branch(s.clone(), clone_children(kids))
            },
        };
        out.push(c);
    }
    proof {
        lemma_forest_view(out@);
        assert(forest_view(out@) =~= forest_view(v@));
    }
    out
}

impl Clone for TreeChild {
    /// A deep copy.
    fn clone(&self) -> (r: Self)
        ensures
            r@ == self@,
    {
        match self {
            TreeChild::Leaf(s) => TreeChild::Leaf(s.clone()),
            TreeChild::Branch(s, kids) => TreeChild::Branch(s.clone(), clone_children(kids)),
        }
    }
}

impl View for TreeChild {
    type V = TreeNode;

    open spec fn view(&self) -> TreeNode {
        child_view(*self)
    }
}

/// A forest section: each root id with its children, in key order.
pub type TreeSection = StrMap<Vec<TreeChild>>;

/// The model of a forest section.
pub open spec fn section_view(s: TreeSection) -> Map<Seq<char>, Seq<TreeNode>> {
    s.map().map_values(|v: Vec<TreeChild>| forest_view(v@))
}

/// An attribute of a node: a single text, or a set of texts.
#[derive(Debug, Clone)]
pub enum AttrValue {
    Scalar(String),
    Vector(StrSet),
}

/// The model of an attribute value.
pub enum AttrModel {
    Scalar(Seq<char>),
    Vector(Set<Seq<char>>),
}

impl View for AttrValue {
    type V = AttrModel;

    open spec fn view(&self) -> AttrModel {
        match self {
            AttrValue::Scalar(s) => AttrModel::Scalar(s@),
            AttrValue::Vector(v) => AttrModel::Vector(v.set()),
        }
    }
}

/// The attributes that a node declares.
#[derive(Debug, Clone)]
pub struct NodeSpec {
    pub attrs: StrMap<AttrValue>,
}

impl View for NodeSpec {
    type V = Map<Seq<char>, AttrModel>;

    open spec fn view(&self) -> Map<Seq<char>, AttrModel> {
        self.attrs.map().map_values(|a: AttrValue| a@)
    }
}

impl Default for NodeSpec {
    /// A node without attributes.
    fn default() -> (r: Self)
        ensures
            r@ == Map::<Seq<char>, AttrModel>::empty(),
    {
        let r = NodeSpec { attrs: StrMap::new() };
        assert(r@ =~= Map::<Seq<char>, AttrModel>::empty());
        r
    }
}

/// A named group of pages.
#[derive(Debug, Clone)]
pub struct GroupSpec {
    pub id: String,
    pub members: StrSet,
}

/// The model of a group.
pub struct GroupModel {
    pub id: Seq<char>,
    pub members: Set<Seq<char>>,
}

impl View for GroupSpec {
    type V = GroupModel;

    open spec fn view(&self) -> GroupModel {
        GroupModel { id: self.id@, members: self.members.set() }
    }
}

/// A whole `.gui` document.
#[derive(Debug, Clone)]
pub struct Document {
    pub app: Option<String>,
    pub drill: TreeSection,
    pub inherit: TreeSection,
    pub nav: StrMap<Vec<String>>,
    pub node: StrMap<NodeSpec>,
    pub groups: Vec<GroupSpec>,
}

/// The model of a document.
pub struct DocModel {
    pub app: Option<Seq<char>>,
    pub drill: Map<Seq<char>, Seq<TreeNode>>,
    pub inherit: Map<Seq<char>, Seq<TreeNode>>,
    pub nav: Map<Seq<char>, Seq<Seq<char>>>,
    pub node: Map<Seq<char>, Map<Seq<char>, AttrModel>>,
    pub groups: Seq<GroupModel>,
}

/// The views of a list of texts.
pub open spec fn texts(v: Seq<String>) -> Seq<Seq<char>> {
    v.map_values(|s: String| s@)
}

/// The model of an optional text.
pub open spec fn opt_view(o: Option<String>) -> Option<Seq<char>> {
    match o {
        Some(s) => Some(s@),
        None => None,
    }
}

impl View for Document {
    type V = DocModel;

    open spec fn view(&self) -> DocModel {
        DocModel {
            app: opt_view(self.app),
            drill: section_view(self.drill),
            inherit: section_view(self.inherit),
            nav: self.nav.map().map_values(|v: Vec<String>| texts(v@)),
            node: self.node.map().map_values(|n: NodeSpec| n@),
            groups: self.groups@.map_values(|g: GroupSpec| g@),
        }
    }
}

/// A problem found while reading or checking a document.
#[derive(Debug, Clone, PartialEq, Eq)]
pub struct ValidationError {
    pub message: String,
}

impl View for ValidationError {
    type V = Seq<char>;

    open spec fn view(&self) -> Seq<char> {
        self.message@
    }
}

impl ValidationError {
    /// An error with the given message.
    pub fn new(message: String) -> (r: Self)
        ensures
            r@ == message@,
    {
        ValidationError { message }
    }
}

/// The messages of a list of errors.
pub open spec fn messages(es: Seq<ValidationError>) -> Seq<Seq<char>> {
    es.map_values(|e: ValidationError| e@)
}

} // verus!
