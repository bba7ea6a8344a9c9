//! Laws of the dispatch engine, stated and proved against the models in
//! [`crate::engine`].

use vstd::prelude::*;

use crate::engine::child_at;
use crate::engine::dispatch_selection;
use crate::engine::dispatch_writes;
use crate::engine::extract_cursor;
use crate::engine::extract_writes;
use crate::engine::gate_passes;
use crate::engine::hit_index;
use crate::engine::lemma_child_at_first;
use crate::engine::post_name_cursor;
use crate::node::FlagView;
use crate::node::NodeView;
use crate::parse::parses_as_u32;

verus! {

/// Flag extraction only ever advances the cursor, and never past the end of
/// the tokens.
pub proof fn lemma_extract_cursor_monotonic(
    flags: Seq<FlagView>,
    tokens: Seq<Seq<char>>,
    cur: int,
)
    requires
        0 <= cur <= tokens.len(),
    ensures
        cur <= extract_cursor(flags, tokens, cur) <= tokens.len(),
    decreases tokens.len() - cur,
{
    if cur + 1 < tokens.len() {
        match hit_index(flags, tokens[cur]) {
            Some(j) => {
                if parses_as_u32(tokens[cur + 1]) {
                    lemma_extract_cursor_monotonic(flags, tokens, cur + 2);
                }
            },
            None => {},
        }
    }
}

/// A selected handler's arguments begin at or after the cursor the dispatch
/// call started from: dispatch only ever consumes tokens forward.
pub proof fn lemma_selection_cursor_monotonic(n: NodeView, tokens: Seq<Seq<char>>, cur: int)
    requires
        0 <= cur <= tokens.len(),
    ensures
        dispatch_selection(n, tokens, cur) matches Some(s) ==> cur <= s.1 <= tokens.len(),
    decreases n,
{
    if gate_passes(n, tokens, cur) {
        let cur1 = post_name_cursor(n, tokens, cur);
        lemma_extract_cursor_monotonic(n.flags, tokens, cur1);
        let cur2 = extract_cursor(n.flags, tokens, cur1);
        if cur2 < tokens.len() {
            match child_at(n.children, tokens[cur2]) {
                Some(i) => {
                    lemma_child_at_first(n.children, tokens[cur2]);
                    lemma_selection_cursor_monotonic(n.children[i], tokens, cur2);
                },
                None => {},
            }
        }
    }
}

/// The moment a recognized flag token's value is missing or fails to parse,
/// extraction stops with the cursor unchanged and writes nothing from that
/// point: the pair is left in the stream as positional data.
pub proof fn lemma_extract_stops_on_parse_failure(
    flags: Seq<FlagView>,
    tokens: Seq<Seq<char>>,
    cur: int,
    dests: Seq<u32>,
)
    requires
        0 <= cur <= tokens.len(),
        cur < tokens.len(),
        hit_index(flags, tokens[cur]) is Some,
        cur + 1 < tokens.len() ==> !parses_as_u32(tokens[cur + 1]),
    ensures
        extract_cursor(flags, tokens, cur) == cur,
        extract_writes(flags, tokens, cur, dests) == dests,
{
}

/// The token positions of the `flag value` pairs one extraction consumes:
/// each listed position is the flag token's, and the value sits right after.
pub open spec fn extract_consumed(flags: Seq<FlagView>, tokens: Seq<Seq<char>>, cur: int) -> Seq<
    int,
>
    decreases tokens.len() - cur when 0 <= cur <= tokens.len()
{
    if cur + 1 < tokens.len() {
        match hit_index(flags, tokens[cur]) {
            Some(j) => if parses_as_u32(tokens[cur + 1]) {
                seq![cur] + extract_consumed(flags, tokens, cur + 2)
            } else {
                Seq::empty()
            },
            None => Seq::empty(),
        }
    } else {
        Seq::empty()
    }
}

/// The token positions of every pair consumed anywhere in a dispatch call,
/// in the order the extractions along the matched path consume them.
pub open spec fn dispatch_consumed(n: NodeView, tokens: Seq<Seq<char>>, cur: int) -> Seq<int>
    decreases n,
{
    if !gate_passes(n, tokens, cur) {
        Seq::empty()
    } else {
        let cur1 = post_name_cursor(n, tokens, cur);
        let own = extract_consumed(n.flags, tokens, cur1);
        let cur2 = extract_cursor(n.flags, tokens, cur1);
        if cur2 < tokens.len() {
            match child_at(n.children, tokens[cur2]) {
                Some(i) => {
                    proof {
                        lemma_child_at_first(n.children, tokens[cur2]);
                    }
                    own + dispatch_consumed(n.children[i], tokens, cur2)
                },
                None => own,
            }
        } else {
            own
        }
    }
}

/// One extraction's consumed pairs lie between its starting cursor and its
/// final cursor, in strictly increasing, non-overlapping positions.
pub proof fn lemma_extract_consumed_bounds(flags: Seq<FlagView>, tokens: Seq<Seq<char>>, cur: int)
    requires
        0 <= cur <= tokens.len(),
    ensures
        forall|k: int|
            0 <= k < extract_consumed(flags, tokens, cur).len() ==> cur <= #[trigger] extract_consumed(
                flags,
                tokens,
                cur,
            )[k] && extract_consumed(flags, tokens, cur)[k] + 2 <= extract_cursor(
                flags,
                tokens,
                cur,
            ),
        forall|a: int, b: int|
            0 <= a < b < extract_consumed(flags, tokens, cur).len() ==> #[trigger] extract_consumed(
                flags,
                tokens,
                cur,
            )[a] + 2 <= #[trigger] extract_consumed(flags, tokens, cur)[b],
    decreases tokens.len() - cur,
{
    if cur + 1 < tokens.len() {
        match hit_index(flags, tokens[cur]) {
            Some(j) => {
                if parses_as_u32(tokens[cur + 1]) {
                    lemma_extract_consumed_bounds(flags, tokens, cur + 2);
                    lemma_extract_cursor_monotonic(flags, tokens, cur + 2);
                    let rest = extract_consumed(flags, tokens, cur + 2);
                    let whole = extract_consumed(flags, tokens, cur);
                    assert(whole == seq![cur] + rest);
                    assert(whole[0] == cur);
                    assert(forall|k: int| 1 <= k < whole.len() ==> whole[k] == rest[k - 1]);
                }
            },
            None => {},
        }
    }
}

/// Flag extraction never consumes a token pair twice across a single
/// dispatch call: the positions consumed anywhere along the matched path
/// are strictly increasing and two apart, so no two extractions, at one
/// node or at different nodes, touch the same pair.
pub proof fn lemma_no_pair_consumed_twice(n: NodeView, tokens: Seq<Seq<char>>, cur: int)
    requires
        0 <= cur <= tokens.len(),
    ensures
        forall|k: int|
            0 <= k < dispatch_consumed(n, tokens, cur).len() ==> cur <= #[trigger] dispatch_consumed(
                n,
                tokens,
                cur,
            )[k] && dispatch_consumed(n, tokens, cur)[k] + 2 <= tokens.len(),
        forall|a: int, b: int|
            0 <= a < b < dispatch_consumed(n, tokens, cur).len() ==> #[trigger] dispatch_consumed(
                n,
                tokens,
                cur,
            )[a] + 2 <= #[trigger] dispatch_consumed(n, tokens, cur)[b],
    decreases n,
{
    if gate_passes(n, tokens, cur) {
        let cur1 = post_name_cursor(n, tokens, cur);
        let own = extract_consumed(n.flags, tokens, cur1);
        let cur2 = extract_cursor(n.flags, tokens, cur1);
        lemma_extract_consumed_bounds(n.flags, tokens, cur1);
        lemma_extract_cursor_monotonic(n.flags, tokens, cur1);
        let whole = dispatch_consumed(n, tokens, cur);
        if cur2 < tokens.len() && child_at(n.children, tokens[cur2]) is Some {
            let i = child_at(n.children, tokens[cur2])->Some_0;
            lemma_child_at_first(n.children, tokens[cur2]);
            lemma_no_pair_consumed_twice(n.children[i], tokens, cur2);
            let rest = dispatch_consumed(n.children[i], tokens, cur2);
            assert(whole == own + rest);
            assert(forall|k: int| 0 <= k < own.len() ==> whole[k] == own[k]);
            assert(forall|k: int|
                own.len() <= k < whole.len() ==> whole[k] == rest[k - own.len()]);
        } else {
            assert(whole == own);
        }
    }
}

/// Whatever the dispatch outcome depends on lies at or after its starting
/// cursor: two token sequences that agree from `cur` on produce the same
/// extraction cursor and the same writes.
pub proof fn lemma_extract_ignores_prefix(
    flags: Seq<FlagView>,
    t1: Seq<Seq<char>>,
    t2: Seq<Seq<char>>,
    cur: int,
    dests: Seq<u32>,
)
    requires
        0 <= cur <= t1.len(),
        t1.len() == t2.len(),
        forall|k: int| cur <= k < t1.len() ==> t1[k] == t2[k],
    ensures
        extract_cursor(flags, t1, cur) == extract_cursor(flags, t2, cur),
        extract_writes(flags, t1, cur, dests) == extract_writes(flags, t2, cur, dests),
    decreases t1.len() - cur,
{
    if cur + 1 < t1.len() {
        assert(t1[cur] == t2[cur]);
        assert(t1[cur + 1] == t2[cur + 1]);
        match hit_index(flags, t1[cur]) {
            Some(j) => {
                if parses_as_u32(t1[cur + 1]) {
                    let d = flags[j].dest;
                    let v = crate::parse::u32_value(t1[cur + 1]) as u32;
                    let next = if 0 <= d < dests.len() {
                        dests.update(d, v)
                    } else {
                        dests
                    };
                    lemma_extract_ignores_prefix(flags, t1, t2, cur + 2, next);
                }
            },
            None => {},
        }
    }
}

/// Dispatch never looks behind its starting cursor: two token sequences
/// that agree from `cur` on produce the same selection and the same writes.
pub proof fn lemma_dispatch_ignores_prefix(
    n: NodeView,
    t1: Seq<Seq<char>>,
    t2: Seq<Seq<char>>,
    cur: int,
    dests: Seq<u32>,
)
    requires
        0 <= cur <= t1.len(),
        t1.len() == t2.len(),
        forall|k: int| cur <= k < t1.len() ==> t1[k] == t2[k],
    ensures
        dispatch_selection(n, t1, cur) == dispatch_selection(n, t2, cur),
        dispatch_writes(n, t1, cur, dests) == dispatch_writes(n, t2, cur, dests),
    decreases n,
{
    if cur < t1.len() {
        assert(t1[cur] == t2[cur]);
    }
    if gate_passes(n, t1, cur) {
        let cur1 = post_name_cursor(n, t1, cur);
        lemma_extract_ignores_prefix(n.flags, t1, t2, cur1, dests);
        lemma_extract_cursor_monotonic(n.flags, t1, cur1);
        let cur2 = extract_cursor(n.flags, t1, cur1);
        if cur2 < t1.len() {
            assert(t1[cur2] == t2[cur2]);
            match child_at(n.children, t1[cur2]) {
                Some(i) => {
                    lemma_child_at_first(n.children, t1[cur2]);
                    let d2 = extract_writes(n.flags, t1, cur1, dests);
                    lemma_dispatch_ignores_prefix(n.children[i], t1, t2, cur2, d2);
                },
                None => {},
            }
        }
    }
}

/// Root unconditional discard: the value of the leading token never
/// influences a root dispatch.  Two token sequences of equal length that
/// agree everywhere but possibly in their first element produce the same
/// selection and the same writes.
pub proof fn lemma_root_discards_first_token(
    n: NodeView,
    t1: Seq<Seq<char>>,
    t2: Seq<Seq<char>>,
    dests: Seq<u32>,
)
    requires
        n.is_root,
        t1.len() == t2.len(),
        t1.len() > 0,
        forall|k: int| 1 <= k < t1.len() ==> t1[k] == t2[k],
    ensures
        dispatch_selection(n, t1, 0) == dispatch_selection(n, t2, 0),
        dispatch_writes(n, t1, 0, dests) == dispatch_writes(n, t2, 0, dests),
{
    assert(gate_passes(n, t1, 0) && gate_passes(n, t2, 0));
    assert(post_name_cursor(n, t1, 0) == 1 && post_name_cursor(n, t2, 0) == 1);
    lemma_extract_ignores_prefix(n.flags, t1, t2, 1, dests);
    lemma_extract_cursor_monotonic(n.flags, t1, 1);
    let cur2 = extract_cursor(n.flags, t1, 1);
    if cur2 < t1.len() {
        assert(t1[cur2] == t2[cur2]);
        match child_at(n.children, t1[cur2]) {
            Some(i) => {
                lemma_child_at_first(n.children, t1[cur2]);
                let d2 = extract_writes(n.flags, t1, 1, dests);
                lemma_dispatch_ignores_prefix(n.children[i], t1, t2, cur2, d2);
            },
            None => {},
        }
    }
}

/// Under well-formedness sibling names are unique, so whatever order
/// children are tried in, at most one can match the next token.
pub proof fn lemma_matching_child_unique(n: NodeView, tok: Seq<char>, i: int, j: int)
    requires
        n.wf(),
        0 <= i < n.children.len(),
        0 <= j < n.children.len(),
        n.children[i].name == tok,
        n.children[j].name == tok,
    ensures
        i == j,
{
}

/// Ancestor suppression: when the matching child's subtree selects a
/// handler, the parent's dispatch returns exactly that selection, and the
/// parent's own handler never runs.  Combined over the recursion, exactly
/// one handler across the whole tree is selected per call.
pub proof fn lemma_ancestor_suppression(n: NodeView, tokens: Seq<Seq<char>>, cur: int, i: int)
    requires
        gate_passes(n, tokens, cur),
        ({
            let cur2 = extract_cursor(n.flags, tokens, post_name_cursor(n, tokens, cur));
            &&& cur2 < tokens.len()
            &&& child_at(n.children, tokens[cur2]) == Some(i)
            &&& dispatch_selection(n.children[i], tokens, cur2) is Some
        }),
    ensures
        dispatch_selection(n, tokens, cur) == dispatch_selection(
            n.children[i],
            tokens,
            extract_cursor(n.flags, tokens, post_name_cursor(n, tokens, cur)),
        ),
{
}

} // verus!
