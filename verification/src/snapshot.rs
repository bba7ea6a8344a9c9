//! The descriptor snapshot: a passive, read-only mirror of the tree built
//! after dispatch, annotating each node with whether it personally matched
//! and whether its subtree executed a handler.  It carries no behaviour of
//! its own; a caller renders it (typically as an indented name/description
//! listing) when nothing in the tree matched.

use vstd::prelude::*;

use crate::engine::child_at;
use crate::engine::dispatch_selection;
use crate::engine::dispatch_writes;
use crate::engine::extract_cursor;
use crate::engine::flags_view;
use crate::engine::gate_passes;
use crate::engine::lemma_child_at_first;
use crate::engine::post_name_cursor;
use crate::engine::scan_flags;
use crate::engine::selection_model;
use crate::engine::Selection;
use crate::node::cmd_view;
use crate::node::Cmd;
use crate::node::DuplicateSiblingName;
use crate::node::NodeView;

verus! {

broadcast use vstd::std_specs::vec::group_vec_axioms;

/// One mirrored node: its name and description, whether its own name gate
/// passed during dispatch, and whether anything in its subtree executed.
pub struct Data {
    pub name: String,
    pub description: Option<String>,
    pub sub: Vec<Data>,
    pub matched: bool,
    pub subtree_ran: bool,
}

/// The mathematical model of a mirrored node.
pub ghost struct DataView {
    pub name: Seq<char>,
    pub description: Option<Seq<char>>,
    pub sub: Seq<DataView>,
    pub matched: bool,
    pub subtree_ran: bool,
}

/// The model of a snapshot tree, defined structurally.
pub open spec fn data_view(d: Data) -> DataView
    decreases d,
{
    DataView {
        name: d.name@,
        description: match d.description {
            Some(s) => Some(s@),
            None => None,
        },
        sub: Seq::new(
            d.sub@.len(),
            |i: int|
                if 0 <= i < d.sub@.len() {
                    data_view(d.sub@[i])
                } else {
                    arbitrary()
                },
        ),
        matched: d.matched,
        subtree_ran: d.subtree_ran,
    }
}

impl View for Data {
    type V = DataView;

    open spec fn view(&self) -> DataView {
        data_view(*self)
    }
}

/// The snapshot a dispatch call leaves behind, mirroring the subtree at `n`.
///
/// `active` says whether dispatch reached this node at cursor `cur`: the
/// node matched if it was reached and its name gate passed there, its
/// subtree ran if it was reached and its dispatch selected a handler, and
/// its children were reached exactly when it matched, at the cursor left
/// after its flag extraction.
pub open spec fn snapshot_spec(
    n: NodeView,
    tokens: Seq<Seq<char>>,
    cur: int,
    active: bool,
) -> DataView
    decreases n,
{
    let matched = active && gate_passes(n, tokens, cur);
    let sub_cur = if matched {
        extract_cursor(n.flags, tokens, post_name_cursor(n, tokens, cur))
    } else {
        0
    };
    DataView {
        name: n.name,
        description: n.description,
        sub: Seq::new(
            n.children.len(),
            |i: int|
                if 0 <= i < n.children.len() {
                    snapshot_spec(n.children[i], tokens, sub_cur, matched)
                } else {
                    arbitrary()
                },
        ),
        matched: matched,
        subtree_ran: active && dispatch_selection(n, tokens, cur) is Some,
    }
}

impl Data {
    /// A fresh mirror entry with no children recorded yet.
    pub fn new(name: String, description: Option<String>, matched: bool, ran: bool) -> (d: Data)
        ensures
            d@ == (DataView {
                name: name@,
                description: match description {
                    Some(s) => Some(s@),
                    None => None::<Seq<char>>,
                },
                sub: Seq::<DataView>::empty(),
                matched: matched,
                subtree_ran: ran,
            }),
    {
        let d = Data { name, description, sub: Vec::new(), matched, subtree_ran: ran };
        proof {
            assert(d@.sub =~= Seq::<DataView>::empty());
        }
        d
    }

    /// Records a child's mirror under this entry; an executed descendant
    /// marks the whole subtree as executed.
    pub fn subcmd(&mut self, child: Data)
        ensures
            final(self)@ == (DataView {
                sub: old(self)@.sub.push(child@),
                subtree_ran: old(self)@.subtree_ran || child@.subtree_ran,
                ..old(self)@
            }),
    {
        self.subtree_ran = self.subtree_ran || child.subtree_ran;
        let ghost before = *self;
        self.sub.push(child);
        proof {
            assert(self@.sub =~= before@.sub.push(child@));
        }
    }

    /// Whether this entry's own handler is the one to run: the node matched
    /// and nothing in its subtree has run yet.  Marks the subtree as run
    /// when it answers yes.
    pub fn run(&mut self) -> (r: bool)
        ensures
            r == (old(self).matched && !old(self).subtree_ran),
            final(self)@ == (DataView {
                subtree_ran: old(self)@.subtree_ran || r,
                ..old(self)@
            }),
    {
        let r = self.matched && !self.subtree_ran;
        self.subtree_ran = self.subtree_ran || r;
        proof {
            assert(self@.sub =~= old(self)@.sub);
        }
        r
    }
}

impl Cmd {
    /// Walks the subtree the way dispatch does, but read-only, and builds
    /// its mirror: the selection the walk recomputes is exactly the one
    /// dispatch made, and the mirror is the snapshot of this subtree.
    #[verifier::loop_isolation(false)]
    pub fn snapshot_walk(&self, tokens: &Vec<String>, cur: usize, active: bool) -> (r: (
        Data,
        Option<Selection>,
    ))
        requires
            cur <= tokens@.len(),
            self@.wf(),
        ensures
            r.0@ == snapshot_spec(self@, tokens.deep_view(), cur as int, active),
            active ==> selection_model(r.1) == dispatch_selection(
                self@,
                tokens.deep_view(),
                cur as int,
            ),
            !active ==> r.1 is None,
        decreases *self,
    {
        let ghost tv = tokens.deep_view();
        let matched: bool;
        if active {
            if self.is_root {
                matched = true;
            } else if cur < tokens.len() {
                proof {
                    assert(tv[cur as int] == tokens@[cur as int]@);
                }
                matched = tokens[cur] == self.name;
            } else {
                matched = false;
            }
        } else {
            matched = false;
        }
        proof {
            assert(matched == (active && gate_passes(self@, tv, cur as int)));
        }
        let sub_cur: usize;
        if matched {
            let cur1 = if self.is_root {
                if cur < tokens.len() {
                    cur + 1
                } else {
                    cur
                }
            } else {
                cur + 1
            };
            proof {
                assert(flags_view(self.flags@) =~= self@.flags);
                assert(cur1 as int == post_name_cursor(self@, tv, cur as int));
            }
            sub_cur = scan_flags(&self.flags, tokens, cur1);
            proof {
                assert(sub_cur as int == extract_cursor(
                    self@.flags,
                    tv,
                    post_name_cursor(self@, tv, cur as int),
                ));
            }
        } else {
            sub_cur = 0;
        }
        let description = match &self.description {
            Some(d) => Some(d.clone()),
            None => None,
        };
        let own_ran = matched && self.handler.is_some();
        let mut mirror = Data::new(self.name.clone(), description, matched, own_ran);
        let ghost ca = if matched && sub_cur < tokens@.len() {
            child_at(self@.children, tv[sub_cur as int])
        } else {
            None::<int>
        };
        proof {
            if matched && sub_cur < tokens@.len() {
                lemma_child_at_first(self@.children, tv[sub_cur as int]);
            }
        }
        let mut childsel: Option<Selection> = None;
        let mut found = false;
        let n = self.children.len();
        let mut i: usize = 0;
        while i < n
            invariant
                0 <= i <= n,
                mirror@.sub.len() == i,
                mirror@.name == self@.name,
                mirror@.description == self@.description,
                mirror@.matched == matched,
                forall|l: int|
                    0 <= l < i ==> #[trigger] mirror@.sub[l] == snapshot_spec(
                        self@.children[l],
                        tv,
                        sub_cur as int,
                        matched,
                    ),
                found == (ca matches Some(l) && l < i),
                found ==> selection_model(childsel) == dispatch_selection(
                    self@.children[ca->Some_0],
                    tv,
                    sub_cur as int,
                ),
                !found ==> childsel is None,
                mirror@.subtree_ran == (own_ran || (exists|l: int|
                    0 <= l < i && (#[trigger] snapshot_spec(
                        self@.children[l],
                        tv,
                        sub_cur as int,
                        matched,
                    )).subtree_ran)),
            decreases n - i,
        {
            proof {
                assert(self@.children[i as int] == cmd_view(self.children@[i as int]));
            }
            let (d, s) = self.children[i].snapshot_walk(tokens, sub_cur, matched);
            if matched && sub_cur < tokens.len() {
                proof {
                    assert(tv[sub_cur as int] == tokens@[sub_cur as int]@);
                }
                if !found && self.children[i].name == tokens[sub_cur] {
                    proof {
                        assert(self@.children[i as int].name == tv[sub_cur as int]);
                        assert(ca == Some(i as int));
                    }
                    found = true;
                    childsel = s;
                }
            }
            mirror.subcmd(d);
            i += 1;
        }
        let sel: Option<Selection>;
        if matched {
            match childsel {
                Some(s) => {
                    sel = Some(s);
                },
                None => {
                    sel = match self.handler {
                        Some(h) => Some(Selection { handler: h, args_at: sub_cur }),
                        None => None,
                    };
                },
            }
        } else {
            sel = None;
        }
        proof {
            let spec_d = snapshot_spec(self@, tv, cur as int, active);
            let children = self@.children;
            assert(mirror@.sub =~= spec_d.sub);
            if matched {
                assert forall|l: int|
                    0 <= l < children.len() && (ca matches Some(c) ==> l
                        != c) implies dispatch_selection(
                    #[trigger] children[l],
                    tv,
                    sub_cur as int,
                ) is None by {
                    assert(!children[l].is_root);
                    if sub_cur < tokens@.len() {
                        if children[l].name == tv[sub_cur as int] {
                            assert(ca is Some);
                            let c = ca->Some_0;
                            if l != c {
                                assert(children[l].name == children[c].name);
                            }
                        }
                        assert(!gate_passes(children[l], tv, sub_cur as int));
                    } else {
                        assert(!gate_passes(children[l], tv, sub_cur as int));
                    }
                }
                assert forall|l: int|
                    0 <= l < children.len() implies (#[trigger] snapshot_spec(
                    children[l],
                    tv,
                    sub_cur as int,
                    true,
                )).subtree_ran == (dispatch_selection(children[l], tv, sub_cur as int)
                    is Some) by {}
                match ca {
                    Some(c) => {
                        let cs = dispatch_selection(children[c], tv, sub_cur as int);
                        if cs is Some {
                            assert(snapshot_spec(children[c], tv, sub_cur as int, true).subtree_ran);
                            assert(mirror@.subtree_ran);
                            assert(dispatch_selection(self@, tv, cur as int) == cs);
                        } else {
                            assert forall|l: int|
                                0 <= l < children.len() implies !(#[trigger] snapshot_spec(
                                children[l],
                                tv,
                                sub_cur as int,
                                true,
                            )).subtree_ran by {}
                            assert(mirror@.subtree_ran == own_ran);
                        }
                    },
                    None => {
                        assert forall|l: int|
                            0 <= l < children.len() implies !(#[trigger] snapshot_spec(
                            children[l],
                            tv,
                            sub_cur as int,
                            true,
                        )).subtree_ran by {}
                        assert(mirror@.subtree_ran == own_ran);
                    },
                }
            } else {
                assert forall|l: int|
                    0 <= l < children.len() implies !(#[trigger] snapshot_spec(
                    children[l],
                    tv,
                    sub_cur as int,
                    false,
                )).subtree_ran by {}
                assert(!mirror@.subtree_ran);
            }
            assert(mirror@.subtree_ran == spec_d.subtree_ran);
            assert(mirror@ == spec_d);
        }
        (mirror, sel)
    }
}

/// The entry point a program hands its argument vector to: the full token
/// sequence (its first element the program's own invocation name) together
/// with the root of the command tree.
pub struct App {
    pub args: Vec<String>,
    pub root: Cmd,
}

impl App {
    /// An application named `name` over the given argument vector.  The
    /// vector is taken whole: the root's unconditional discard consumes its
    /// leading element during dispatch, so callers must not pre-strip it.
    pub fn new_args(name: &str, args: Vec<String>) -> (a: App)
        ensures
            a.args@ == args@,
            a.root@ == (NodeView {
                name: name@,
                is_root: true,
                handler: None::<u64>,
                description: None::<Seq<char>>,
                flags: Seq::empty(),
                children: Seq::empty(),
            }),
            a.root@.wf(),
    {
        App { args, root: Cmd::root(name) }
    }

    /// Registers `sub` as the next child of the root; a sibling of the same
    /// name is a build-time fault.
    pub fn subcmd(self, sub: Cmd) -> (r: Result<App, DuplicateSiblingName>)
        requires
            !sub@.is_root,
        ensures
            (r is Ok) <==> (forall|i: int|
                0 <= i < self.root@.children.len() ==> (#[trigger] self.root@.children[i]).name
                    != sub@.name),
            r matches Ok(a) ==> a.root@ == (NodeView {
                children: self.root@.children.push(sub@),
                ..self.root@
            }) && a.args@ == self.args@,
            r matches Ok(a) ==> (self.root@.wf() && sub@.wf() ==> a.root@.wf()),
    {
        let App { args, root } = self;
        match root.subcmd(sub) {
            Ok(root) => Ok(App { args, root }),
            Err(e) => Err(e),
        }
    }

    /// Attaches `handler` to the root and dispatches the argument vector:
    /// the root handler is the fallback that receives everything after the
    /// discarded leading token when no subcommand matches.  Returns the
    /// selection dispatch made and the descriptor snapshot mirroring it, for
    /// the caller to render when nothing matched or help was asked for.
    pub fn run(self, handler: u64, dests: &mut Vec<u32>) -> (r: (Option<Selection>, Data))
        requires
            self.root@.wf(),
            self.root@.dests_lt(old(dests)@.len() as int),
        ensures
            ({
                let rooth = NodeView { handler: Some(handler), ..self.root@ };
                let tv = self.args.deep_view();
                &&& selection_model(r.0) == dispatch_selection(rooth, tv, 0)
                &&& final(dests)@ == dispatch_writes(rooth, tv, 0, old(dests)@)
                &&& final(dests)@.len() == old(dests)@.len()
                &&& r.1@ == snapshot_spec(rooth, tv, 0, true)
            }),
    {
        let App { args, root } = self;
        let root = root.run(handler);
        proof {
            assert(root@.wf());
            assert(root@.dests_lt(old(dests)@.len() as int));
        }
        let (snap, _) = root.snapshot_walk(&args, 0, true);
        let sel = root.exec(&args, 0, dests);
        (sel, snap)
    }
}

} // verus!
