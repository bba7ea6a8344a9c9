//! The command tree: nodes, flag declarations, and the builder methods that
//! assemble a tree before dispatch.
//!
//! A node names a command, optionally carries a handler and a description,
//! declares integer flags in order, and owns its children in registration
//! order.  Sibling names are pairwise distinct; adding a child under a name
//! already taken fails at build time.
//!
//! Handlers are caller-supplied callbacks; the tree stores each behind an
//! opaque identifier chosen by the builder, and dispatch reports which
//! identifier was selected.  Flag destinations are slots of an integer
//! context handed to dispatch by the caller; a declaration names its slot by
//! index.

use vstd::prelude::*;

verus! {

broadcast use vstd::std_specs::vec::group_vec_axioms;

/// A declared flag: a literal token (such as `"-t"`) and the index of the
/// destination slot its parsed value is written to.
pub struct FlagDecl {
    pub token: String,
    pub dest: usize,
}

/// The mathematical model of a flag declaration.
pub ghost struct FlagView {
    pub token: Seq<char>,
    pub dest: int,
}

impl View for FlagDecl {
    type V = FlagView;

    open spec fn view(&self) -> FlagView {
        FlagView { token: self.token@, dest: self.dest as int }
    }
}

/// One node of the command tree.
pub struct Cmd {
    pub name: String,
    pub is_root: bool,
    pub handler: Option<u64>,
    pub description: Option<String>,
    pub flags: Vec<FlagDecl>,
    pub children: Vec<Cmd>,
}

/// The mathematical model of a node: names and descriptions as character
/// sequences, flags and children in declaration order.
pub ghost struct NodeView {
    pub name: Seq<char>,
    pub is_root: bool,
    pub handler: Option<u64>,
    pub description: Option<Seq<char>>,
    pub flags: Seq<FlagView>,
    pub children: Seq<NodeView>,
}

/// The model of a command tree, defined structurally.
pub open spec fn cmd_view(c: Cmd) -> NodeView
    decreases c,
{
    NodeView {
        name: c.name@,
        is_root: c.is_root,
        handler: c.handler,
        description: match c.description {
            Some(d) => Some(d@),
            None => None,
        },
        flags: Seq::new(c.flags@.len(), |i: int| c.flags@[i]@),
        children: Seq::new(
            c.children@.len(),
            |i: int|
                if 0 <= i < c.children@.len() {
                    cmd_view(c.children@[i])
                } else {
                    arbitrary()
                },
        ),
    }
}

impl View for Cmd {
    type V = NodeView;

    open spec fn view(&self) -> NodeView {
        cmd_view(*self)
    }
}

impl NodeView {
    /// Well-formedness of a subtree: sibling names are pairwise distinct and
    /// no child is a root.  The builder establishes this and every builder
    /// method preserves it.
    pub open spec fn wf(self) -> bool
        decreases self,
    {
        &&& forall|i: int, j: int|
            0 <= i < j < self.children.len()
                ==> #[trigger] self.children[i].name != #[trigger] self.children[j].name
        &&& forall|i: int|
            0 <= i < self.children.len()
                ==> !(#[trigger] self.children[i]).is_root && self.children[i].wf()
    }

    /// Every flag destination in the subtree names a slot below `n_dests`,
    /// so that dispatch over a context of that many slots stays in bounds.
    pub open spec fn dests_lt(self, n_dests: int) -> bool
        decreases self,
    {
        &&& forall|i: int|
            0 <= i < self.flags.len() ==> 0 <= #[trigger] self.flags[i].dest < n_dests
        &&& forall|i: int|
            0 <= i < self.children.len() ==> (#[trigger] self.children[i]).dests_lt(n_dests)
    }
}

/// The build-time failure: two children registered under one parent share a
/// name.  Construction is rejected rather than silently overwriting.
#[derive(Clone, Copy, Debug, PartialEq, Eq, Structural)]
pub struct DuplicateSiblingName;

impl Cmd {
    /// A bare node: no handler, no flags, no children.
    fn build(name: &str, root: bool) -> (c: Cmd)
        ensures
            c@ == (NodeView {
                name: name@,
                is_root: root,
                handler: None::<u64>,
                description: None::<Seq<char>>,
                flags: Seq::<FlagView>::empty(),
                children: Seq::<NodeView>::empty(),
            }),
    {
        let c = Cmd {
            name: name.to_owned(),
            is_root: root,
            handler: None,
            description: None,
            flags: Vec::new(),
            children: Vec::new(),
        };
        proof {
            assert(c@.flags =~= Seq::<FlagView>::empty());
            assert(c@.children =~= Seq::<NodeView>::empty());
        }
        c
    }

    /// A leaf command named `name`.
    pub fn new(name: &str) -> (c: Cmd)
        ensures
            c@.name == name@,
            !c@.is_root,
            c@.handler is None,
            c@.description is None,
            c@.flags == Seq::<FlagView>::empty(),
            c@.children == Seq::<NodeView>::empty(),
            c@.wf(),
    {
        Self::build(name, false)
    }

    /// The top-level command: its first-token consumption is unconditional.
    pub fn root(name: &str) -> (c: Cmd)
        ensures
            c@.name == name@,
            c@.is_root,
            c@.handler is None,
            c@.description is None,
            c@.flags == Seq::<FlagView>::empty(),
            c@.children == Seq::<NodeView>::empty(),
            c@.wf(),
    {
        Self::build(name, true)
    }

    /// Attaches the handler identified by `handler`; a second call replaces
    /// the first.
    pub fn run(self, handler: u64) -> (c: Cmd)
        ensures
            c@ == (NodeView { handler: Some(handler), ..self@ }),
    {
        let c = Cmd { handler: Some(handler), ..self };
        proof {
            assert(c@.flags =~= self@.flags);
            assert(c@.children =~= self@.children);
        }
        c
    }

    /// Attaches a description; cosmetic only, never consulted by dispatch.
    pub fn description(self, description: &str) -> (c: Cmd)
        ensures
            c@ == (NodeView { description: Some(description@), ..self@ }),
    {
        let c = Cmd { description: Some(description.to_owned()), ..self };
        proof {
            assert(c@.flags =~= self@.flags);
            assert(c@.children =~= self@.children);
        }
        c
    }

    /// Appends a flag declaration binding `token` to destination slot `dest`;
    /// flags are tried in declaration order.
    pub fn flag(self, token: &str, dest: usize) -> (c: Cmd)
        ensures
            c@ == (NodeView {
                flags: self@.flags.push(FlagView { token: token@, dest: dest as int }),
                ..self@
            }),
    {
        let mut c = self;
        c.flags.push(FlagDecl { token: token.to_owned(), dest });
        proof {
            assert(c@.children =~= cmd_view(c).children);
            assert(c@.flags =~= self@.flags.push(FlagView { token: token@, dest: dest as int }));
            assert(c@.children =~= self@.children);
        }
        c
    }

    /// Appends `sub` as the last child.  If a sibling already bears the same
    /// name, the tree is returned unchanged inside the error: duplicate
    /// sibling names are a build-time fault, never deferred to dispatch.
    pub fn subcmd(self, sub: Cmd) -> (r: Result<Cmd, DuplicateSiblingName>)
        requires
            !sub@.is_root,
        ensures
            (r is Ok) <==> (forall|i: int|
                0 <= i < self@.children.len()
                    ==> (#[trigger] self@.children[i]).name != sub@.name),
            r matches Ok(c) ==> c@ == (NodeView {
                children: self@.children.push(sub@),
                ..self@
            }),
            r matches Ok(c) ==> (self@.wf() && sub@.wf() ==> c@.wf()),
    {
        let n = self.children.len();
        let mut k: usize = 0;
        while k < n
            invariant
                n == self.children@.len(),
                0 <= k <= n,
                forall|i: int| 0 <= i < k ==> (#[trigger] self@.children[i]).name != sub@.name,
            decreases n - k,
        {
            if self.children[k].name == sub.name {
                proof {
                    assert(self@.children[k as int].name == self.children@[k as int]@.name);
                }
                return Err(DuplicateSiblingName);
            }
            proof {
                assert(self@.children[k as int].name == self.children@[k as int]@.name);
            }
            k += 1;
        }
        let ghost old_self = self;
        let mut c = self;
        c.children.push(sub);
        proof {
            assert(c@.flags =~= old_self@.flags);
            assert(c@.children =~= old_self@.children.push(sub@));
        }
        Ok(c)
    }
}

} // verus!
