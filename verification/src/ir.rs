//! The compact program representation the analyses read: functions as
//! event lists with loop regions and a control-flow graph.
use vstd::prelude::*;
use crate::keymap::{compare_texts, path_lt, TextKey};
use crate::text::{compare_text, concat2, concat3, join, join_spec, owned, text_eq, texts, TextOrder};

verus! {

/// A path to a tracked resource: a root local and a chain of field names.
#[derive(Debug, Clone, PartialEq, Eq, PartialOrd, Ord, Hash)]
pub struct ResourcePath {
    pub root: String,
    pub fields: Vec<String>,
}

impl View for ResourcePath {
    type V = Seq<Seq<char>>;

    /// The root followed by the fields.
    open spec fn view(&self) -> Seq<Seq<char>> {
        seq![self.root@] + texts(self.fields@)
    }
}

/// A copy of a list of strings.
pub fn copy_strings(v: &Vec<String>) -> (r: Vec<String>)
    ensures
        r@ == v@,
{
    let mut r: Vec<String> = Vec::new();
    let mut i: usize = 0;
    while i < v.len()
        invariant
            i <= v.len(),
            r@ == v@.take(i as int),
        decreases v.len() - i,
    {
        r.push(v[i].clone());
        assert(r@ =~= v@.take(i + 1));
        i = i + 1;
    }
    assert(v@.take(v.len() as int) =~= v@);
    r
}

/// A copy of an optional string.
pub fn copy_opt(o: &Option<String>) -> (r: Option<String>)
    ensures
        r == *o,
{
    match o {
        Some(s) => Some(s.clone()),
        None => None,
    }
}

/// The text of the fields joined by `.`.
pub open spec fn dotted(fields: Seq<String>) -> Seq<char> {
    join_spec(texts(fields), "."@)
}

impl ResourcePath {
    pub fn new(root: &str, fields: Vec<String>) -> (r: Self)
        ensures
            r.root@ == root@,
            r.fields@ == fields@,
    {
        ResourcePath { root: owned(root), fields }
    }

    /// `self.<field>`.
    pub fn self_field(field: &str) -> (r: Self)
        ensures
            r.root@ == "self"@,
            r.fields@.len() == 1,
            r.fields@[0]@ == field@,
    {
        let mut fields: Vec<String> = Vec::new();
        fields.push(owned(field));
        ResourcePath { root: owned("self"), fields }
    }

    /// Name of the variable standing for this resource's length.
    pub open spec fn len_var_text(self) -> Seq<char> {
        if self.root@ == "self"@ && self.fields@.len() > 0 {
            dotted(self.fields@) + ".len"@
        } else if self.fields@.len() == 0 {
            self.root@ + ".len"@
        } else {
            self.root@ + "."@ + dotted(self.fields@) + ".len"@
        }
    }

    /// `front.len` for `self.front`, `x.len` for a bare root, `x.a.len` otherwise.
    pub fn len_var(&self) -> (r: String)
        ensures
            r@ == self.len_var_text(),
    {
        let is_self = text_eq(self.root.as_str(), "self");
        if is_self && self.fields.len() > 0 {
            let j = join(&self.fields, ".");
            concat2(j.as_str(), ".len")
        } else if self.fields.len() == 0 {
            concat2(self.root.as_str(), ".len")
        } else {
            let j = join(&self.fields, ".");
            let head = concat3(self.root.as_str(), ".", j.as_str());
            concat2(head.as_str(), ".len")
        }
    }

    /// A copy of the path.
    pub fn copy(&self) -> (r: Self)
        ensures
            r.root == self.root,
            r.fields@ == self.fields@,
            r@ == self@,
    {
        ResourcePath { root: self.root.clone(), fields: copy_strings(&self.fields) }
    }

    /// The path extended by one field.
    pub fn join_field(&self, field: &str) -> (r: Self)
        ensures
            r.root == self.root,
            r.fields@.len() == self.fields@.len() + 1,
            r.fields@.drop_last() == self.fields@,
            r.fields@.last()@ == field@,
            r@ == self@.push(field@),
    {
        let mut p = self.copy();
        let f = owned(field);
        p.fields.push(f);
        assert(p.fields@.drop_last() =~= self.fields@);
        assert(texts(p.fields@) =~= texts(self.fields@).push(field@));
        assert(p@ =~= self@.push(field@));
        p
    }

    /// Written form: the root, then `.field` for each field.
    pub open spec fn text(self) -> Seq<char> {
        if self.fields@.len() == 0 {
            self.root@
        } else {
            self.root@ + "."@ + dotted(self.fields@)
        }
    }

    pub fn to_string(&self) -> (r: String)
        ensures
            r@ == self.text(),
    {
        if self.fields.len() == 0 {
            self.root.clone()
        } else {
            let j = join(&self.fields, ".");
            concat3(self.root.as_str(), ".", j.as_str())
        }
    }

    /// Whether two paths name the same resource.
    pub fn same_as(&self, other: &Self) -> (r: bool)
        ensures
            r == (self@ == other@),
    {
        match self.key_order(other) {
            TextOrder::Equal => true,
            _ => false,
        }
    }
}

/// Paths with the same view are written the same way.
pub proof fn lemma_same_view_same_text(a: ResourcePath, b: ResourcePath)
    requires
        a@ == b@,
    ensures
        a.text() == b.text(),
        a.len_var_text() == b.len_var_text(),
{
    lemma_path_order(a, b);
    assert(a.fields@.len() == texts(a.fields@).len());
    assert(b.fields@.len() == texts(b.fields@).len());
}

/// Comparing paths compares the roots, then the fields.
proof fn lemma_path_order(a: ResourcePath, b: ResourcePath)
    ensures
        path_lt(a@, b@) == if a.root@ == b.root@ {
            path_lt(texts(a.fields@), texts(b.fields@))
        } else {
            crate::text::seq_lt(a.root@, b.root@)
        },
        (a@ == b@) == (a.root@ == b.root@ && texts(a.fields@) == texts(b.fields@)),
{
    assert(a@[0] == a.root@);
    assert(b@[0] == b.root@);
    assert(a@.drop_first() =~= texts(a.fields@));
    assert(b@.drop_first() =~= texts(b.fields@));
    if a@ == b@ {
        assert(a@[0] == b@[0]);
    }
    if a.root@ == b.root@ && texts(a.fields@) == texts(b.fields@) {
        assert(a@ =~= b@);
    }
}

impl TextKey for ResourcePath {
    open spec fn key_view(&self) -> Seq<Seq<char>> {
        self@
    }

    fn key_order(&self, other: &Self) -> (r: TextOrder) {
        proof {
            lemma_path_order(*self, *other);
            lemma_path_order(*other, *self);
        }
        match compare_text(self.root.as_str(), other.root.as_str()) {
            TextOrder::Equal => compare_texts(&self.fields, &other.fields),
            o => o,
        }
    }

    fn key_copy(&self) -> (r: Self) {
        self.copy()
    }
}

/// How a value is reached: owned, borrowed, through a raw pointer.
#[derive(Debug, Clone, Copy, PartialEq, Eq, Structural)]
pub enum AccessKind {
    Owned,
    SharedBorrow,
    MutBorrow,
    RawPointer,
    Unknown,
}

/// All collected functions of one crate.
#[derive(Debug, Clone, PartialEq, Eq)]
pub struct ProgramIr {
    pub crate_name: String,
    pub functions: Vec<FunctionIr>,
}

/// One function: its events, loop regions and control-flow graph.
#[derive(Debug, Clone, PartialEq, Eq)]
pub struct FunctionIr {
    pub name: String,
    pub owner_type: Option<String>,
    pub signature: FunctionSignature,
    pub blocks: usize,
    pub events: Vec<Event>,
    pub loops: Vec<LoopRegion>,
    /// Full intraprocedural CFG: `successors[bb]` lists the basic blocks
    /// reachable directly from block `bb`.
    pub successors: Vec<Vec<usize>>,
}

impl FunctionIr {
    /// `Owner::name` for a method, `name` otherwise.
    pub open spec fn full_name_text(self) -> Seq<char> {
        match self.owner_type {
            Some(t) => t@ + "::"@ + self.name@,
            None => self.name@,
        }
    }

    pub fn full_name(&self) -> (r: String)
        ensures
            r@ == self.full_name_text(),
    {
        match &self.owner_type {
            Some(t) => concat3(t.as_str(), "::", self.name.as_str()),
            None => self.name.clone(),
        }
    }
}

#[derive(Debug, Clone, PartialEq, Eq, Default)]
pub struct FunctionSignature {
    pub self_access: Option<AccessKind>,
    pub generic_params: Vec<String>,
}

/// The blocks of one loop; the first is its header.
#[derive(Debug, Clone, PartialEq, Eq)]
pub struct LoopRegion {
    pub blocks: Vec<usize>,
}

/// What happens in a basic block, as far as the analyses care.
#[derive(Debug, Clone, PartialEq, Eq)]
pub enum Event {
    Call(CallEvent),
    Assign(AssignEvent),
    Branch(BranchEvent),
    /// `dst = src as <type>`.
    Cast { block: usize, from: String, to: String },
    /// `target = lhs <op> <rhs>`; `rhs_const` only for an integer literal.
    Binop { block: usize, op: String, target: Option<String>, lhs: Option<String>, rhs_const: Option<i64> },
    Return { block: usize },
    Unsafe { block: usize, detail: String },
    Drop { block: usize, target: Option<ResourcePath> },
    Unknown { block: usize, detail: String },
}

impl Event {
    /// The block the event belongs to.
    pub open spec fn block_of(self) -> usize {
        match self {
            Event::Call(e) => e.block,
            Event::Assign(e) => e.block,
            Event::Branch(e) => e.block,
            Event::Cast { block, .. } => block,
            Event::Binop { block, .. } => block,
            Event::Return { block } => block,
            Event::Unsafe { block, .. } => block,
            Event::Drop { block, .. } => block,
            Event::Unknown { block, .. } => block,
        }
    }

    pub fn block(&self) -> (r: usize)
        ensures
            r == self.block_of(),
    {
        match self {
            Event::Call(e) => e.block,
            Event::Assign(e) => e.block,
            Event::Branch(e) => e.block,
            Event::Cast { block, .. } => *block,
            Event::Binop { block, .. } => *block,
            Event::Return { block } => *block,
            Event::Unsafe { block, .. } => *block,
            Event::Drop { block, .. } => *block,
            Event::Unknown { block, .. } => *block,
        }
    }
}

/// A call: callee path, method name, resolved receiver and arguments.
#[derive(Debug, Clone, PartialEq, Eq)]
pub struct CallEvent {
    pub block: usize,
    pub callee: String,
    pub method: String,
    pub receiver: Option<ResourcePath>,
    pub receiver_ty: Option<String>,
    pub receiver_access: AccessKind,
    pub args: Vec<String>,
    pub is_trait_call: bool,
    /// Local the call's result is written to, when it is a simple named local.
    pub destination: Option<String>,
}

#[derive(Debug, Clone, PartialEq, Eq)]
pub struct AssignEvent {
    pub block: usize,
    pub target: Option<ResourcePath>,
    pub detail: String,
}

#[derive(Debug, Clone, PartialEq, Eq)]
pub struct BranchEvent {
    pub block: usize,
    pub condition: Option<PathCondition>,
    pub detail: String,
}

/// A condition a branch establishes about a resource's length.
#[derive(Debug, Clone, PartialEq, Eq)]
pub enum PathCondition {
    LenEqZero(ResourcePath),
    LenGtZero(ResourcePath),
    Unknown(String),
}

impl PathCondition {
    /// The same condition on a copy of its path.
    pub open spec fn same_as(self, other: PathCondition) -> bool {
        match (self, other) {
            (PathCondition::LenEqZero(a), PathCondition::LenEqZero(b)) => a.root == b.root && a.fields@ == b.fields@,
            (PathCondition::LenGtZero(a), PathCondition::LenGtZero(b)) => a.root == b.root && a.fields@ == b.fields@,
            (PathCondition::Unknown(a), PathCondition::Unknown(b)) => a == b,
            _ => false,
        }
    }

    pub fn copy(&self) -> (r: Self)
        ensures
            r.same_as(*self),
    {
        match self {
            PathCondition::LenEqZero(p) => PathCondition::LenEqZero(p.copy()),
            PathCondition::LenGtZero(p) => PathCondition::LenGtZero(p.copy()),
            PathCondition::Unknown(s) => PathCondition::Unknown(s.clone()),
        }
    }
}

} // verus!
