//! The dispatch engine.
//!
//! `dispatch` walks the tree against the token sequence: the root discards
//! exactly one leading token unconditionally; every other node requires the
//! next token to equal its name; a node then extracts its declared flags
//! from the front of the remainder, tries its children in registration
//! order, and only if no child's subtree executes falls back to its own
//! handler.  At most one handler is selected per call, and a descendant's
//! selection suppresses every ancestor's handler.
//!
//! The engine never invokes handlers itself: it returns which handler was
//! selected and where its arguments start, and writes extracted flag values
//! into the destination slots of the caller's integer context.

use vstd::prelude::*;

use crate::node::cmd_view;
use crate::node::Cmd;
use crate::node::FlagDecl;
use crate::node::FlagView;
use crate::node::NodeView;
use crate::parse::parse_u32;
use crate::parse::parses_as_u32;
use crate::parse::u32_value;

verus! {

broadcast use vstd::std_specs::vec::group_vec_axioms;

/// The model of a flag declaration list, in declaration order.
pub open spec fn flags_view(flags: Seq<FlagDecl>) -> Seq<FlagView> {
    Seq::new(flags.len(), |i: int| flags[i]@)
}

/// The index of the first declared flag whose token equals `tok`.
pub open spec fn hit_index(flags: Seq<FlagView>, tok: Seq<char>) -> Option<int>
    decreases flags.len(),
{
    if flags.len() == 0 {
        None
    } else if flags[0].token == tok {
        Some(0int)
    } else {
        match hit_index(flags.drop_first(), tok) {
            Some(j) => Some(j + 1),
            None => None,
        }
    }
}

/// `hit_index` names the first flag whose token matches, and `None` means no
/// flag matches.
pub proof fn lemma_hit_index_first(flags: Seq<FlagView>, tok: Seq<char>)
    ensures
        match hit_index(flags, tok) {
            Some(j) => 0 <= j < flags.len() && flags[j].token == tok && (forall|l: int|
                0 <= l < j ==> (#[trigger] flags[l]).token != tok),
            None => forall|l: int| 0 <= l < flags.len() ==> (#[trigger] flags[l]).token != tok,
        },
    decreases flags.len(),
{
    if flags.len() > 0 && flags[0].token != tok {
        lemma_hit_index_first(flags.drop_first(), tok);
        assert(forall|l: int|
            1 <= l < flags.len() ==> #[trigger] flags[l] == flags.drop_first()[l - 1]);
    }
}

/// The cursor after flag extraction: starting at `cur`, as long as the token
/// under the cursor is a declared flag's token and the token after it parses
/// as an integer, both are consumed; the first token pair that fails either
/// test stops extraction with the cursor unchanged from that point.
pub open spec fn extract_cursor(flags: Seq<FlagView>, tokens: Seq<Seq<char>>, cur: int) -> int
    decreases tokens.len() - cur when 0 <= cur <= tokens.len()
{
    if cur + 1 < tokens.len() {
        match hit_index(flags, tokens[cur]) {
            Some(j) => if parses_as_u32(tokens[cur + 1]) {
                extract_cursor(flags, tokens, cur + 2)
            } else {
                cur
            },
            None => cur,
        }
    } else {
        cur
    }
}

/// The destination slots after flag extraction: each consumed pair writes
/// its parsed value into the matched flag's slot, later writes overriding
/// earlier ones.
pub open spec fn extract_writes(
    flags: Seq<FlagView>,
    tokens: Seq<Seq<char>>,
    cur: int,
    dests: Seq<u32>,
) -> Seq<u32>
    decreases tokens.len() - cur when 0 <= cur <= tokens.len()
{
    if cur + 1 < tokens.len() {
        match hit_index(flags, tokens[cur]) {
            Some(j) => if parses_as_u32(tokens[cur + 1]) {
                let d = flags[j].dest;
                let v = u32_value(tokens[cur + 1]) as u32;
                extract_writes(
                    flags,
                    tokens,
                    cur + 2,
                    if 0 <= d < dests.len() {
                        dests.update(d, v)
                    } else {
                        dests
                    },
                )
            } else {
                dests
            },
            None => dests,
        }
    } else {
        dests
    }
}

/// Whether a node's name gate passes at `cur`: unconditionally for the root,
/// and on an exact match of the next token for every other node.
pub open spec fn gate_passes(n: NodeView, tokens: Seq<Seq<char>>, cur: int) -> bool {
    n.is_root || (cur < tokens.len() && tokens[cur] == n.name)
}

/// The cursor after the name gate: the root discards one token when one
/// exists (a no-op on an empty remainder); a matched node consumes its name.
pub open spec fn post_name_cursor(n: NodeView, tokens: Seq<Seq<char>>, cur: int) -> int {
    if n.is_root {
        if cur < tokens.len() {
            cur + 1
        } else {
            cur
        }
    } else {
        cur + 1
    }
}

/// The index of the first child whose name equals `tok`; under
/// well-formedness it is the only one.
pub open spec fn child_at(children: Seq<NodeView>, tok: Seq<char>) -> Option<int>
    decreases children.len(),
{
    if children.len() == 0 {
        None
    } else if children[0].name == tok {
        Some(0int)
    } else {
        match child_at(children.drop_first(), tok) {
            Some(j) => Some(j + 1),
            None => None,
        }
    }
}

/// `child_at` names the first child whose name matches, and `None` means no
/// child matches.
pub proof fn lemma_child_at_first(children: Seq<NodeView>, tok: Seq<char>)
    ensures
        match child_at(children, tok) {
            Some(i) => 0 <= i < children.len() && children[i].name == tok && (forall|l: int|
                0 <= l < i ==> (#[trigger] children[l]).name != tok),
            None => forall|l: int| 0 <= l < children.len() ==> (#[trigger] children[l]).name != tok,
        },
    decreases children.len(),
{
    if children.len() > 0 && children[0].name != tok {
        lemma_child_at_first(children.drop_first(), tok);
        assert(forall|l: int|
            1 <= l < children.len() ==> #[trigger] children[l] == children.drop_first()[l - 1]);
    }
}

/// The selection a dispatch call makes: the identifier of the one handler
/// that executes and the cursor where its arguments begin, or `None` when
/// nothing in the subtree matches.
pub open spec fn dispatch_selection(n: NodeView, tokens: Seq<Seq<char>>, cur: int) -> Option<
    (u64, int),
>
    decreases n,
{
    if !gate_passes(n, tokens, cur) {
        None
    } else {
        let cur2 = extract_cursor(n.flags, tokens, post_name_cursor(n, tokens, cur));
        let own = match n.handler {
            Some(h) => Some((h, cur2)),
            None => None,
        };
        if cur2 < tokens.len() {
            match child_at(n.children, tokens[cur2]) {
                Some(i) => {
                    proof {
                        lemma_child_at_first(n.children, tokens[cur2]);
                    }
                    match dispatch_selection(n.children[i], tokens, cur2) {
                        Some(s) => Some(s),
                        None => own,
                    }
                },
                None => own,
            }
        } else {
            own
        }
    }
}

/// The destination slots after a dispatch call: the writes of every flag
/// extraction performed along the matched path, in order.
pub open spec fn dispatch_writes(
    n: NodeView,
    tokens: Seq<Seq<char>>,
    cur: int,
    dests: Seq<u32>,
) -> Seq<u32>
    decreases n,
{
    if !gate_passes(n, tokens, cur) {
        dests
    } else {
        let cur2 = extract_cursor(n.flags, tokens, post_name_cursor(n, tokens, cur));
        let d2 = extract_writes(n.flags, tokens, post_name_cursor(n, tokens, cur), dests);
        if cur2 < tokens.len() {
            match child_at(n.children, tokens[cur2]) {
                Some(i) => {
                    proof {
                        lemma_child_at_first(n.children, tokens[cur2]);
                    }
                    dispatch_writes(n.children[i], tokens, cur2, d2)
                },
                None => d2,
            }
        } else {
            d2
        }
    }
}

/// What a dispatch call selected: the identifier of the one handler to run
/// and the index where its argument tokens begin.
#[derive(Clone, Copy, Debug, PartialEq, Eq, Structural)]
pub struct Selection {
    pub handler: u64,
    pub args_at: usize,
}

/// The model of a dispatch result.
pub open spec fn selection_model(r: Option<Selection>) -> Option<(u64, int)> {
    match r {
        Some(s) => Some((s.handler, s.args_at as int)),
        None => None,
    }
}

/// The first declared flag whose token equals `tok`, by a scan in
/// declaration order.
fn find_flag(flags: &Vec<FlagDecl>, tok: &String) -> (r: Option<usize>)
    ensures
        match r {
            Some(j) => hit_index(flags_view(flags@), tok@) == Some(j as int),
            None => hit_index(flags_view(flags@), tok@) is None,
        },
{
    let ghost fv = flags_view(flags@);
    let n = flags.len();
    let mut k: usize = 0;
    while k < n
        invariant
            0 <= k <= n,
            n == flags@.len(),
            fv == flags_view(flags@),
            forall|l: int| 0 <= l < k ==> (#[trigger] fv[l]).token != tok@,
        decreases n - k,
    {
        if flags[k].token == *tok {
            proof {
                assert(fv[k as int].token == tok@);
                lemma_hit_index_first(fv, tok@);
            }
            return Some(k);
        }
        proof {
            assert(fv[k as int].token == flags@[k as int].token@);
        }
        k += 1;
    }
    proof {
        lemma_hit_index_first(fv, tok@);
    }
    None
}

/// Extracts recognized `flag value` pairs from the front of the remaining
/// tokens, writing each parsed value into its destination slot and advancing
/// the cursor past both tokens; the first pair that fails (no declared flag
/// matches, the value is missing, or it does not parse) stops extraction
/// with the cursor unchanged from that point.
pub fn extract_flags(
    flags: &Vec<FlagDecl>,
    tokens: &Vec<String>,
    cur: usize,
    dests: &mut Vec<u32>,
) -> (r: usize)
    requires
        cur <= tokens@.len(),
        forall|i: int| 0 <= i < flags@.len() ==> (#[trigger] flags@[i]).dest < old(dests)@.len(),
    ensures
        r == extract_cursor(flags_view(flags@), tokens.deep_view(), cur as int),
        final(dests)@ == extract_writes(
            flags_view(flags@),
            tokens.deep_view(),
            cur as int,
            old(dests)@,
        ),
        cur <= r <= tokens@.len(),
        final(dests)@.len() == old(dests)@.len(),
{
    let ghost fv = flags_view(flags@);
    let ghost tv = tokens.deep_view();
    let mut c = cur;
    loop
        invariant
            cur <= c <= tv.len(),
            tv.len() == tokens@.len(),
            fv == flags_view(flags@),
            tv == tokens.deep_view(),
            dests@.len() == old(dests)@.len(),
            forall|i: int| 0 <= i < flags@.len() ==> (#[trigger] flags@[i]).dest < dests@.len(),
            extract_cursor(fv, tv, cur as int) == extract_cursor(fv, tv, c as int),
            extract_writes(fv, tv, cur as int, old(dests)@) == extract_writes(
                fv,
                tv,
                c as int,
                dests@,
            ),
        ensures
            cur <= c <= tv.len(),
            dests@.len() == old(dests)@.len(),
            c == extract_cursor(fv, tv, cur as int),
            dests@ == extract_writes(fv, tv, cur as int, old(dests)@),
        decreases tv.len() - c,
    {
        if c >= tokens.len() {
            break;
        }
        if c + 1 >= tokens.len() {
            break;
        }
        proof {
            assert(tv[c as int] == tokens@[c as int]@);
            assert(tv[c + 1] == tokens@[c + 1]@);
        }
        let j = match find_flag(flags, &tokens[c]) {
            Some(j) => j,
            None => { break; },
        };
        let v = match parse_u32(tokens[c + 1].as_str()) {
            Some(v) => v,
            None => { break; },
        };
        proof {
            lemma_hit_index_first(fv, tv[c as int]);
            assert(fv[j as int].dest == flags@[j as int].dest);
        }
        let d = flags[j].dest;
        dests[d] = v;
        c = c + 2;
    }
    c
}

/// The cursor after flag extraction, computed without writing any
/// destination slot: the read-only walk the descriptor snapshot takes over
/// the same tokens.
pub fn scan_flags(flags: &Vec<FlagDecl>, tokens: &Vec<String>, cur: usize) -> (r: usize)
    requires
        cur <= tokens@.len(),
    ensures
        r == extract_cursor(flags_view(flags@), tokens.deep_view(), cur as int),
        cur <= r <= tokens@.len(),
{
    let ghost fv = flags_view(flags@);
    let ghost tv = tokens.deep_view();
    let mut c = cur;
    loop
        invariant
            cur <= c <= tv.len(),
            tv.len() == tokens@.len(),
            fv == flags_view(flags@),
            tv == tokens.deep_view(),
            extract_cursor(fv, tv, cur as int) == extract_cursor(fv, tv, c as int),
        ensures
            cur <= c <= tv.len(),
            c == extract_cursor(fv, tv, cur as int),
        decreases tv.len() - c,
    {
        if c >= tokens.len() {
            break;
        }
        if c + 1 >= tokens.len() {
            break;
        }
        proof {
            assert(tv[c as int] == tokens@[c as int]@);
            assert(tv[c + 1] == tokens@[c + 1]@);
        }
        if find_flag(flags, &tokens[c]).is_none() {
            break;
        }
        if parse_u32(tokens[c + 1].as_str()).is_none() {
            break;
        }
        c = c + 2;
    }
    c
}

impl Cmd {
    /// Dispatches this subtree against the tokens from `cur` on.
    ///
    /// The name gate runs first: the root discards one token
    /// unconditionally, every other node requires an exact match of the next
    /// token to its name and returns `None` without any mutation otherwise.
    /// The node's flags are then extracted, its children tried in
    /// registration order, and its own handler selected only if no child's
    /// subtree made a selection.
    #[verifier::loop_isolation(false)]
    pub fn exec(&self, tokens: &Vec<String>, cur: usize, dests: &mut Vec<u32>) -> (r: Option<
        Selection,
    >)
        requires
            cur <= tokens@.len(),
            self@.dests_lt(old(dests)@.len() as int),
        ensures
            selection_model(r) == dispatch_selection(self@, tokens.deep_view(), cur as int),
            final(dests)@ == dispatch_writes(self@, tokens.deep_view(), cur as int, old(dests)@),
            final(dests)@.len() == old(dests)@.len(),
            r matches Some(s) ==> cur <= s.args_at <= tokens@.len(),
            !self@.is_root && (cur >= tokens@.len() || tokens.deep_view()[cur as int]
                != self@.name) ==> r is None && final(dests)@ == old(dests)@,
        decreases *self,
    {
        let ghost tv = tokens.deep_view();
        let cur1: usize;
        if self.is_root {
            cur1 = if cur < tokens.len() {
                cur + 1
            } else {
                cur
            };
        } else {
            if cur >= tokens.len() {
                return None;
            }
            proof {
                assert(tv[cur as int] == tokens@[cur as int]@);
            }
            if !(tokens[cur] == self.name) {
                return None;
            }
            cur1 = cur + 1;
        }
        proof {
            assert(flags_view(self.flags@) =~= self@.flags);
            assert forall|i: int|
                0 <= i < self.flags@.len() implies (#[trigger] self.flags@[i]).dest
                < dests@.len() by {
                assert(self@.flags[i] == self.flags@[i]@);
                assert(self@.flags[i].dest < old(dests)@.len());
            }
        }
        let cur2 = extract_flags(&self.flags, tokens, cur1, dests);
        let ghost d2 = dests@;
        if cur2 < tokens.len() {
            proof {
                assert(tv[cur2 as int] == tokens@[cur2 as int]@);
            }
            let n = self.children.len();
            let mut i: usize = 0;
            while i < n
                invariant
                    0 <= i <= n,
                    dests@ == d2,
                    forall|l: int|
                        0 <= l < i ==> (#[trigger] self@.children[l]).name != tv[cur2 as int],
                decreases n - i,
            {
                proof {
                    assert(self@.children[i as int] == cmd_view(self.children@[i as int]));
                }
                if self.children[i].name == tokens[cur2] {
                    proof {
                        lemma_child_at_first(self@.children, tv[cur2 as int]);
                        assert(child_at(self@.children, tv[cur2 as int]) == Some(i as int));
                        assert(self.children@[i as int]@.dests_lt(dests@.len() as int));
                    }
                    let r = self.children[i].exec(tokens, cur2, dests);
                    match r {
                        Some(s) => {
                            return Some(s);
                        },
                        None => {
                            return self.own_selection(cur2);
                        },
                    }
                }
                i += 1;
            }
            proof {
                lemma_child_at_first(self@.children, tv[cur2 as int]);
            }
        }
        self.own_selection(cur2)
    }

    /// The fallback: this node's own handler, if any, with the arguments
    /// starting at `cur2`.
    fn own_selection(&self, cur2: usize) -> (r: Option<Selection>)
        ensures
            selection_model(r) == match self@.handler {
                Some(h) => Some((h, cur2 as int)),
                None => None::<(u64, int)>,
            },
    {
        match self.handler {
            Some(h) => Some(Selection { handler: h, args_at: cur2 }),
            None => None,
        }
    }

    /// Dispatches the whole token sequence against this tree, consuming the
    /// tree: a tree serves exactly one dispatch call.
    ///
    /// Returns which handler was selected and where its arguments begin, and
    /// writes every successfully extracted flag value into `dests`.
    pub fn execute_with(self, tokens: &Vec<String>, dests: &mut Vec<u32>) -> (r: Option<Selection>)
        requires
            self@.dests_lt(old(dests)@.len() as int),
        ensures
            selection_model(r) == dispatch_selection(self@, tokens.deep_view(), 0),
            final(dests)@ == dispatch_writes(self@, tokens.deep_view(), 0, old(dests)@),
            final(dests)@.len() == old(dests)@.len(),
            r matches Some(s) ==> s.args_at <= tokens@.len(),
    {
        self.exec(tokens, 0, dests)
    }
}

} // verus!
