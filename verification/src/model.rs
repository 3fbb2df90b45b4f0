//! The mathematical model of the trie: a ghost tree of counts, flags and
//! payloads, the operations on it, its invariant, and the laws the trie obeys.

use vstd::prelude::*;

verus! {

broadcast use vstd::seq_lib::group_seq_lib_default, vstd::seq::group_seq_axioms;

/// The mathematical shape of one trie node: its traversal count, its children
/// as an ordered association list from token to subtree, its payload, and
/// whether it is the terminus of at least one currently-present key.
#[verifier::ext_equal]
pub ghost struct TrieView<T> {
    pub count: u64,
    pub children: Seq<(Seq<char>, TrieView<T>)>,
    pub data: Option<T>,
    pub is_key_end: bool,
}

/// The view of an empty node: zero count, no payload, no children.
pub open spec fn empty_view<T>() -> TrieView<T> {
    TrieView { count: 0, children: Seq::empty(), data: None, is_key_end: false }
}

/// Whether some child is labelled `tok`.
pub open spec fn has_child<T>(cs: Seq<(Seq<char>, TrieView<T>)>, tok: Seq<char>) -> bool {
    exists|i: int| 0 <= i < cs.len() && cs[i].0 == tok
}

/// The position of the child labelled `tok`.
pub open spec fn child_index<T>(cs: Seq<(Seq<char>, TrieView<T>)>, tok: Seq<char>) -> int {
    choose|i: int| 0 <= i < cs.len() && cs[i].0 == tok
}

/// The child labelled `tok`.
pub open spec fn child_at<T>(cs: Seq<(Seq<char>, TrieView<T>)>, tok: Seq<char>) -> TrieView<T> {
    cs[child_index(cs, tok)].1
}

/// No two children carry the same label.
pub open spec fn keys_distinct<T>(cs: Seq<(Seq<char>, TrieView<T>)>) -> bool {
    forall|i: int, j: int| 0 <= i < j < cs.len() ==> cs[i].0 != cs[j].0
}

/// The association list with the child labelled `tok` replaced, or appended
/// when no child carries that label yet.
pub open spec fn set_child<T>(
    cs: Seq<(Seq<char>, TrieView<T>)>,
    tok: Seq<char>,
    c: TrieView<T>,
) -> Seq<(Seq<char>, TrieView<T>)> {
    if has_child(cs, tok) {
        cs.update(child_index(cs, tok), (tok, c))
    } else {
        cs.push((tok, c))
    }
}

/// The children that survive pruning: exactly those whose count is not zero,
/// in their original order.
pub open spec fn pruned_children<T>(cs: Seq<(Seq<char>, TrieView<T>)>) -> Seq<
    (Seq<char>, TrieView<T>),
>
    decreases cs.len(),
{
    if cs.len() == 0 {
        Seq::empty()
    } else if cs.first().1.count != 0 {
        seq![cs.first()] + pruned_children(cs.drop_first())
    } else {
        pruned_children(cs.drop_first())
    }
}

/// A traversal count one higher, saturating at the maximum.
pub open spec fn bumped(c: u64) -> u64 {
    if c < u64::MAX {
        (c + 1) as u64
    } else {
        c
    }
}

/// A traversal count one lower, saturating at zero; a count that once
/// saturated at the maximum is frozen, so the node is never wrongly pruned.
pub open spec fn lowered(c: u64) -> u64 {
    if 0 < c < u64::MAX {
        (c - 1) as u64
    } else {
        c
    }
}

/// The node reached by walking the tokens from `v`, if every step exists.
pub open spec fn spec_get<T>(v: TrieView<T>, toks: Seq<Seq<char>>) -> Option<TrieView<T>>
    decreases toks.len(),
{
    if toks.len() == 0 {
        Some(v)
    } else if has_child(v.children, toks.first()) {
        spec_get(child_at(v.children, toks.first()), toks.drop_first())
    } else {
        None
    }
}

/// Whether the tokens lead to a node that ends a currently-present key.
pub open spec fn spec_exists<T>(v: TrieView<T>, toks: Seq<Seq<char>>) -> bool {
    match spec_get(v, toks) {
        Some(n) => n.is_key_end,
        None => false,
    }
}

/// Insertion: walk the tokens from `v`, creating empty children as needed and
/// raising each descended-into node's count by one; the final node takes the
/// payload and becomes a key end.  The entry node's own count never moves.
pub open spec fn spec_add<T>(v: TrieView<T>, toks: Seq<Seq<char>>, data: Option<T>) -> TrieView<T>
    decreases toks.len(),
{
    if toks.len() == 0 {
        TrieView { data: data, is_key_end: true, ..v }
    } else {
        let tok = toks.first();
        let c0 = if has_child(v.children, tok) {
            child_at(v.children, tok)
        } else {
            empty_view()
        };
        let c1 = TrieView { count: bumped(c0.count), ..c0 };
        let c2 = spec_add(c1, toks.drop_first(), data);
        TrieView { children: set_child(v.children, tok, c2), ..v }
    }
}

/// Removal along a token path: the deepest node loses its key-end flag, every
/// node below the entry loses one count, and each node's zero-count children
/// are pruned on the way back up; a missing step leaves the subtree as it is.
pub open spec fn spec_removed<T>(v: TrieView<T>, toks: Seq<Seq<char>>) -> TrieView<T>
    decreases toks.len(),
{
    if toks.len() == 0 {
        TrieView { is_key_end: false, children: pruned_children(v.children), ..v }
    } else if has_child(v.children, toks.first()) {
        let c = child_at(v.children, toks.first());
        let c1 = spec_removed(c, toks.drop_first());
        let c2 = TrieView { count: lowered(c1.count), ..c1 };
        TrieView { children: pruned_children(set_child(v.children, toks.first(), c2)), ..v }
    } else {
        v
    }
}

/// What `remove` does at the entry node: nothing unless the key is present;
/// for a key of no tokens only the entry's children are pruned (the entry's
/// own flag stays); otherwise removal walks the tokens.
pub open spec fn spec_remove_entry<T>(v: TrieView<T>, toks: Seq<Seq<char>>) -> TrieView<T> {
    if !spec_exists(v, toks) {
        v
    } else if toks.len() == 0 {
        TrieView { children: pruned_children(v.children), ..v }
    } else {
        spec_removed(v, toks)
    }
}

/// The number of key-end nodes in the subtree rooted at `v`, itself included.
pub open spec fn weight<T>(v: TrieView<T>) -> nat
    decreases v, 1int,
{
    (if v.is_key_end {
        1nat
    } else {
        0nat
    }) + weight_children(v.children)
}

/// The total weight of a child list.
pub open spec fn weight_children<T>(cs: Seq<(Seq<char>, TrieView<T>)>) -> nat
    decreases cs, 0int,
{
    if cs.len() == 0 {
        0nat
    } else {
        weight(cs.first().1) + weight_children(cs.drop_first())
    }
}

/// The structural invariant of every reachable tree: child labels are
/// distinct, a child exists only while its count is positive, and a child's
/// count bounds the number of keys in its subtree (a count frozen at the
/// maximum stands for any number).
pub open spec fn inv<T>(v: TrieView<T>) -> bool
    decreases v,
{
    &&& keys_distinct(v.children)
    &&& forall|i: int|
        0 <= i < v.children.len() ==> {
            &&& (#[trigger] v.children[i]).1.count > 0
            &&& (v.children[i].1.count == u64::MAX || weight(v.children[i].1)
                <= v.children[i].1.count)
            &&& inv(v.children[i].1)
        }
}

/// A label that one child carries picks out exactly that child.
pub proof fn lemma_child_index_unique<T>(cs: Seq<(Seq<char>, TrieView<T>)>, tok: Seq<char>, j: int)
    requires
        keys_distinct(cs),
        0 <= j < cs.len(),
        cs[j].0 == tok,
    ensures
        has_child(cs, tok),
        child_index(cs, tok) == j,
        child_at(cs, tok) == cs[j].1,
{
    assert(has_child(cs, tok));
    let i = child_index(cs, tok);
    assert(0 <= i < cs.len() && cs[i].0 == tok);
    if i != j {
        assert(cs[i].0 != cs[j].0);
    }
}

/// Replacing or appending a child keeps labels distinct and changes lookups
/// only at that label.
pub proof fn lemma_set_child<T>(cs: Seq<(Seq<char>, TrieView<T>)>, tok: Seq<char>, c: TrieView<T>)
    requires
        keys_distinct(cs),
    ensures
        keys_distinct(set_child(cs, tok, c)),
        has_child(set_child(cs, tok, c), tok),
        child_at(set_child(cs, tok, c), tok) == c,
        forall|t2: Seq<char>|
            t2 != tok ==> #[trigger] has_child(set_child(cs, tok, c), t2) == has_child(cs, t2),
        forall|t2: Seq<char>|
            t2 != tok && has_child(cs, t2) ==> #[trigger] child_at(set_child(cs, tok, c), t2)
                == child_at(cs, t2),
{
    let cs2 = set_child(cs, tok, c);
    if has_child(cs, tok) {
        let j = child_index(cs, tok);
        assert(0 <= j < cs.len() && cs[j].0 == tok);
        assert(keys_distinct(cs2));
        lemma_child_index_unique(cs2, tok, j);
    } else {
        assert forall|i: int, k: int| 0 <= i < k < cs2.len() implies cs2[i].0 != cs2[k].0 by {
            if k < cs.len() {
            } else {
                assert(cs2[k].0 == tok);
                assert(!(0 <= i < cs.len() && cs[i].0 == tok));
            }
        }
        lemma_child_index_unique(cs2, tok, cs.len() as int);
    }
    assert forall|t2: Seq<char>| t2 != tok implies #[trigger] has_child(cs2, t2) == has_child(
        cs,
        t2,
    ) by {
        if has_child(cs, t2) {
            let j = choose|i: int| 0 <= i < cs.len() && cs[i].0 == t2;
            assert(cs2[j].0 == t2);
        }
        if has_child(cs2, t2) {
            let j = choose|i: int| 0 <= i < cs2.len() && cs2[i].0 == t2;
            assert(0 <= j < cs.len() && cs[j].0 == t2);
        }
    }
    assert forall|t2: Seq<char>| t2 != tok && has_child(cs, t2) implies #[trigger] child_at(
        cs2,
        t2,
    ) == child_at(cs, t2) by {
        let j = child_index(cs, t2);
        assert(0 <= j < cs.len() && cs[j].0 == t2);
        assert(cs2[j].0 == t2);
        lemma_child_index_unique(cs, t2, j);
        lemma_child_index_unique(cs2, t2, j);
    }
}

/// Every surviving child of a pruning is one of the original children.
pub proof fn lemma_pruned_elems<T>(cs: Seq<(Seq<char>, TrieView<T>)>)
    ensures
        pruned_children(cs).len() <= cs.len(),
        forall|k: int|
            0 <= k < pruned_children(cs).len() ==> exists|j: int|
                0 <= j < cs.len() && cs[j] == #[trigger] pruned_children(cs)[k],
        forall|k: int| 0 <= k < pruned_children(cs).len() ==> #[trigger] pruned_children(
            cs,
        )[k].1.count != 0,
    decreases cs.len(),
{
    if cs.len() == 0 {
    } else {
        lemma_pruned_elems(cs.drop_first());
        let rest = pruned_children(cs.drop_first());
        assert forall|k: int| 0 <= k < pruned_children(cs).len() implies exists|j: int|
            0 <= j < cs.len() && cs[j] == #[trigger] pruned_children(cs)[k] by {
            if cs.first().1.count != 0 {
                if k == 0 {
                    assert(cs[0] == pruned_children(cs)[0]);
                } else {
                    let j0 = choose|j: int| 0 <= j < cs.drop_first().len() && cs.drop_first()[j]
                        == rest[k - 1];
                    assert(cs[j0 + 1] == pruned_children(cs)[k]);
                }
            } else {
                let j0 = choose|j: int| 0 <= j < cs.drop_first().len() && cs.drop_first()[j]
                    == rest[k];
                assert(cs[j0 + 1] == pruned_children(cs)[k]);
            }
        }
    }
}

/// Pruning keeps distinct labels distinct, keeps every positive-count child
/// reachable under its label, and drops a label exactly when its child's
/// count is zero.
pub proof fn lemma_pruned_at<T>(cs: Seq<(Seq<char>, TrieView<T>)>, tok: Seq<char>)
    requires
        keys_distinct(cs),
    ensures
        keys_distinct(pruned_children(cs)),
        has_child(pruned_children(cs), tok) <==> (has_child(cs, tok) && child_at(
            cs,
            tok,
        ).count != 0),
        (has_child(cs, tok) && child_at(cs, tok).count != 0) ==> child_at(
            pruned_children(cs),
            tok,
        ) == child_at(cs, tok),
    decreases cs.len(),
{
    lemma_pruned_distinct(cs);
    let ps = pruned_children(cs);
    if cs.len() == 0 {
    } else {
        lemma_pruned_at(cs.drop_first(), tok);
        let rest = pruned_children(cs.drop_first());
        if cs.first().0 == tok {
            lemma_child_index_unique(cs, tok, 0);
            assert(!has_child(cs.drop_first(), tok)) by {
                if has_child(cs.drop_first(), tok) {
                    let j = child_index(cs.drop_first(), tok);
                    assert(cs[j + 1].0 == tok);
                }
            }
            if cs.first().1.count != 0 {
                assert(ps[0] == cs.first());
                lemma_child_index_unique(ps, tok, 0);
            } else {
                assert(ps == rest);
                if has_child(ps, tok) {
                    assert(has_child(cs.drop_first(), tok));
                }
            }
        } else {
            if has_child(cs, tok) {
                let j = child_index(cs, tok);
                assert(0 <= j < cs.len() && cs[j].0 == tok);
                assert(j != 0);
                assert(cs.drop_first()[j - 1].0 == tok);
                lemma_child_index_unique(cs.drop_first(), tok, j - 1);
                assert(child_at(cs.drop_first(), tok) == child_at(cs, tok));
            } else {
                assert(!has_child(cs.drop_first(), tok)) by {
                    if has_child(cs.drop_first(), tok) {
                        let j = child_index(cs.drop_first(), tok);
                        assert(cs[j + 1].0 == tok);
                    }
                }
            }
            if cs.first().1.count != 0 {
                assert(ps == seq![cs.first()] + rest);
                if has_child(rest, tok) {
                    let j = child_index(rest, tok);
                    assert(ps[j + 1].0 == tok);
                    lemma_child_index_unique(ps, tok, j + 1);
                    assert(ps[j + 1].1 == rest[j].1);
                } else {
                    if has_child(ps, tok) {
                        let j = child_index(ps, tok);
                        assert(j != 0);
                        assert(rest[j - 1].0 == tok);
                    }
                }
            } else {
                assert(ps == rest);
            }
        }
    }
}

/// Pruning keeps labels distinct.
pub proof fn lemma_pruned_distinct<T>(cs: Seq<(Seq<char>, TrieView<T>)>)
    requires
        keys_distinct(cs),
    ensures
        keys_distinct(pruned_children(cs)),
    decreases cs.len(),
{
    if cs.len() == 0 {
    } else {
        lemma_pruned_distinct(cs.drop_first());
        let rest = pruned_children(cs.drop_first());
        lemma_pruned_elems(cs.drop_first());
        if cs.first().1.count != 0 {
            let ps = seq![cs.first()] + rest;
            assert forall|i: int, k: int| 0 <= i < k < ps.len() implies ps[i].0 != ps[k].0 by {
                if i == 0 {
                    let j0 = choose|j: int| 0 <= j < cs.drop_first().len() && cs.drop_first()[j]
                        == rest[k - 1];
                    assert(cs[j0 + 1] == rest[k - 1]);
                    assert(cs[0].0 != cs[j0 + 1].0);
                }
            }
        }
    }
}

/// A pruning that finds no zero count changes nothing.
pub proof fn lemma_pruned_id<T>(cs: Seq<(Seq<char>, TrieView<T>)>)
    requires
        forall|j: int| 0 <= j < cs.len() ==> (#[trigger] cs[j]).1.count != 0,
    ensures
        pruned_children(cs) == cs,
    decreases cs.len(),
{
    if cs.len() == 0 {
        assert(pruned_children(cs) =~= cs);
    } else {
        lemma_pruned_id(cs.drop_first());
        assert(pruned_children(cs) =~= cs);
    }
}

/// Replacing one child changes the total weight by that child's difference.
pub proof fn lemma_weight_update<T>(
    cs: Seq<(Seq<char>, TrieView<T>)>,
    j: int,
    tok: Seq<char>,
    c: TrieView<T>,
)
    requires
        0 <= j < cs.len(),
    ensures
        weight_children(cs.update(j, (tok, c))) + weight(cs[j].1) == weight_children(cs) + weight(
            c,
        ),
    decreases cs.len(),
{
    let cs2 = cs.update(j, (tok, c));
    if j == 0 {
        assert(cs2.drop_first() =~= cs.drop_first());
        assert(cs2.first() == (tok, c));
    } else {
        lemma_weight_update(cs.drop_first(), j - 1, tok, c);
        assert(cs2.drop_first() =~= cs.drop_first().update(j - 1, (tok, c)));
        assert(cs2.first() == cs.first());
        assert(cs.drop_first()[j - 1] == cs[j]);
    }
}

/// Appending a child adds its weight.
pub proof fn lemma_weight_push<T>(cs: Seq<(Seq<char>, TrieView<T>)>, p: (Seq<char>, TrieView<T>))
    ensures
        weight_children(cs.push(p)) == weight_children(cs) + weight(p.1),
    decreases cs.len(),
{
    if cs.len() == 0 {
        assert(cs.push(p).drop_first() =~= Seq::<(Seq<char>, TrieView<T>)>::empty());
        assert(cs.push(p).first() == p);
        assert(weight_children(cs.push(p)) == weight(p.1) + weight_children(
            Seq::<(Seq<char>, TrieView<T>)>::empty(),
        ));
    } else {
        lemma_weight_push(cs.drop_first(), p);
        assert(cs.push(p).drop_first() =~= cs.drop_first().push(p));
        assert(cs.push(p).first() == cs.first());
        assert(weight_children(cs.push(p)) == weight(cs.first().1) + weight_children(
            cs.drop_first().push(p),
        ));
        assert(weight_children(cs) == weight(cs.first().1) + weight_children(cs.drop_first()));
    }
}

/// The total weight bounds each member's weight.
pub proof fn lemma_weight_member<T>(cs: Seq<(Seq<char>, TrieView<T>)>, j: int)
    requires
        0 <= j < cs.len(),
    ensures
        weight(cs[j].1) <= weight_children(cs),
    decreases cs.len(),
{
    if j == 0 {
    } else {
        lemma_weight_member(cs.drop_first(), j - 1);
        assert(cs.drop_first()[j - 1] == cs[j]);
    }
}

/// Pruning children whose zero counts carry no keys keeps the total weight.
pub proof fn lemma_pruned_weight<T>(cs: Seq<(Seq<char>, TrieView<T>)>)
    requires
        forall|j: int|
            0 <= j < cs.len() && (#[trigger] cs[j]).1.count == 0 ==> weight(cs[j].1) == 0,
    ensures
        weight_children(pruned_children(cs)) == weight_children(cs),
    decreases cs.len(),
{
    if cs.len() == 0 {
    } else {
        assert(cs[0] == cs.first());
        lemma_pruned_weight(cs.drop_first());
        if cs.first().1.count != 0 {
            let ps = seq![cs.first()] + pruned_children(cs.drop_first());
            assert(ps.drop_first() =~= pruned_children(cs.drop_first()));
            assert(ps.first() == cs.first());
        }
    }
}

/// Reading a node never depends on its own count: trees differing only in
/// one node's count hold the same keys below it.
pub proof fn lemma_exists_ignores_count<T>(a: TrieView<T>, b: TrieView<T>, toks: Seq<Seq<char>>)
    requires
        a.children == b.children,
        a.is_key_end == b.is_key_end,
    ensures
        spec_exists(a, toks) == spec_exists(b, toks),
{
    if toks.len() == 0 {
    } else {
        assert(spec_get(a, toks) == spec_get(b, toks));
    }
}

/// Insertion preserves the invariant, never moves the entry's own count, and
/// grows the key population by one exactly when the key was absent.
pub proof fn lemma_add_inv<T>(v: TrieView<T>, toks: Seq<Seq<char>>, data: Option<T>)
    requires
        inv(v),
    ensures
        inv(spec_add(v, toks, data)),
        spec_add(v, toks, data).count == v.count,
        weight(spec_add(v, toks, data)) == weight(v) + (if spec_exists(v, toks) {
            0int
        } else {
            1int
        }),
    decreases toks.len(),
{
    let v2 = spec_add(v, toks, data);
    if toks.len() == 0 {
        assert(inv(v2));
    } else {
        let tok = toks.first();
        let existed = has_child(v.children, tok);
        let c0: TrieView<T> = if existed {
            child_at(v.children, tok)
        } else {
            empty_view()
        };
        let c1 = TrieView { count: bumped(c0.count), ..c0 };
        let c2 = spec_add(c1, toks.drop_first(), data);
        if existed {
            let j = child_index(v.children, tok);
            assert(0 <= j < v.children.len() && v.children[j].0 == tok);
            assert(v.children[j].1 == c0);
            assert(inv(c0));
        } else {
            assert(inv(c1));
        }
        assert(inv(c1) && weight(c1) == weight(c0)) by {
            assert(c1.children == c0.children);
        }
        lemma_add_inv(c1, toks.drop_first(), data);
        lemma_exists_ignores_count(c1, c0, toks.drop_first());
        lemma_set_child(v.children, tok, c2);
        let cs2 = set_child(v.children, tok, c2);
        assert(spec_exists(v, toks) == (existed && spec_exists(c0, toks.drop_first())));
        assert(c2.count == c1.count);
        assert(c2.count > 0);
        assert(c2.count == u64::MAX || weight(c2) <= c2.count) by {
            if c0.count == u64::MAX {
            } else {
                if existed {
                    assert(weight(c0) <= c0.count || c0.count == u64::MAX);
                } else {
                    assert(weight_children(c0.children) == 0);
                    assert(weight(c0) == 0);
                }
                if c0.count < u64::MAX {
                    assert(weight(c2) <= weight(c1) + 1);
                }
            }
        }
        if existed {
            let j = child_index(v.children, tok);
            assert forall|i: int| 0 <= i < cs2.len() implies {
                &&& (#[trigger] cs2[i]).1.count > 0
                &&& (cs2[i].1.count == u64::MAX || weight(cs2[i].1) <= cs2[i].1.count)
                &&& inv(cs2[i].1)
            } by {
                if i == j {
                    assert(cs2[i] == (tok, c2));
                } else {
                    assert(cs2[i] == v.children[i]);
                }
            }
            assert(inv(v2));
            lemma_weight_update(v.children, j, tok, c2);
            assert(weight_children(cs2) + weight(c0) == weight_children(v.children) + weight(c2));
        } else {
            assert forall|i: int| 0 <= i < cs2.len() implies {
                &&& (#[trigger] cs2[i]).1.count > 0
                &&& (cs2[i].1.count == u64::MAX || weight(cs2[i].1) <= cs2[i].1.count)
                &&& inv(cs2[i].1)
            } by {
                if i == cs2.len() - 1 {
                    assert(cs2[i] == (tok, c2));
                } else {
                    assert(cs2[i] == v.children[i]);
                }
            }
            assert(inv(v2));
            lemma_weight_push(v.children, (tok, c2));
            assert(weight(c0) == 0);
        }
    }
}

/// Removing a present key preserves the invariant, never moves the entry's
/// own count or flag, and shrinks the key population by exactly one.
pub proof fn lemma_removed_inv<T>(v: TrieView<T>, toks: Seq<Seq<char>>)
    requires
        inv(v),
        spec_exists(v, toks),
    ensures
        inv(spec_removed(v, toks)),
        spec_removed(v, toks).count == v.count,
        toks.len() > 0 ==> spec_removed(v, toks).is_key_end == v.is_key_end,
        weight(spec_removed(v, toks)) + 1 == weight(v),
    decreases toks.len(),
{
    let v2 = spec_removed(v, toks);
    if toks.len() == 0 {
        assert(v.is_key_end);
        lemma_pruned_id(v.children);
        assert(inv(v2));
    } else {
        let tok = toks.first();
        assert(has_child(v.children, tok));
        let j = child_index(v.children, tok);
        assert(0 <= j < v.children.len() && v.children[j].0 == tok);
        let c = child_at(v.children, tok);
        assert(v.children[j].1 == c);
        assert(inv(c));
        assert(spec_exists(c, toks.drop_first()));
        lemma_removed_inv(c, toks.drop_first());
        let c1 = spec_removed(c, toks.drop_first());
        let c2 = TrieView { count: lowered(c1.count), ..c1 };
        assert(inv(c2) && weight(c2) == weight(c1)) by {
            assert(c2.children == c1.children);
        }
        lemma_set_child(v.children, tok, c2);
        let cs2 = set_child(v.children, tok, c2);
        assert(cs2 == v.children.update(j, (tok, c2))) by {
            lemma_child_index_unique(v.children, tok, j);
        }
        assert forall|i: int| 0 <= i < cs2.len() && (#[trigger] cs2[i]).1.count != 0 implies {
            &&& (cs2[i].1.count == u64::MAX || weight(cs2[i].1) <= cs2[i].1.count)
            &&& inv(cs2[i].1)
        } by {
            if i == j {
                assert(cs2[i] == (tok, c2));
                if c.count == u64::MAX {
                    assert(c2.count == u64::MAX);
                } else {
                    assert(weight(c) <= c.count);
                    assert(weight(c2) + 1 == weight(c));
                    assert(c.count > 0);
                    assert(c1.count == c.count);
                    assert(c2.count == c.count - 1);
                }
            } else {
                assert(cs2[i] == v.children[i]);
            }
        }
        assert forall|i: int| 0 <= i < cs2.len() && (#[trigger] cs2[i]).1.count == 0 implies weight(
            cs2[i].1,
        ) == 0 by {
            if i == j {
                assert(cs2[i] == (tok, c2));
                assert(c.count > 0);
                if c.count == u64::MAX {
                    assert(c2.count == u64::MAX);
                } else {
                    assert(weight(c) <= c.count);
                    assert(weight(c2) + 1 == weight(c));
                }
            } else {
                assert(cs2[i] == v.children[i]);
                assert(v.children[i].1.count > 0);
            }
        }
        lemma_pruned_weight(cs2);
        lemma_weight_update(v.children, j, tok, c2);
        lemma_pruned_distinct(cs2);
        lemma_pruned_elems(cs2);
        assert forall|k: int| 0 <= k < pruned_children(cs2).len() implies {
            &&& (#[trigger] pruned_children(cs2)[k]).1.count > 0
            &&& (pruned_children(cs2)[k].1.count == u64::MAX || weight(pruned_children(cs2)[k].1)
                <= pruned_children(cs2)[k].1.count)
            &&& inv(pruned_children(cs2)[k].1)
        } by {
            let q = choose|m: int| 0 <= m < cs2.len() && cs2[m] == pruned_children(cs2)[k];
            assert(cs2[q].1.count != 0);
        }
        assert(inv(v2));
        assert(weight(v2) + 1 == weight(v));
    }
}

/// After a key is inserted it is present: `key_exists` holds for it, and the
/// node its tokens reach carries the new payload.
pub proof fn lemma_add_makes_key_present<T>(v: TrieView<T>, toks: Seq<Seq<char>>, data: Option<T>)
    requires
        inv(v),
    ensures
        spec_exists(spec_add(v, toks, data), toks),
        spec_get(spec_add(v, toks, data), toks) matches Some(n) && n.data == data,
    decreases toks.len(),
{
    let v2 = spec_add(v, toks, data);
    if toks.len() == 0 {
    } else {
        let tok = toks.first();
        let existed = has_child(v.children, tok);
        let c0: TrieView<T> = if existed {
            child_at(v.children, tok)
        } else {
            empty_view()
        };
        let c1 = TrieView { count: bumped(c0.count), ..c0 };
        if existed {
            let j = child_index(v.children, tok);
            assert(0 <= j < v.children.len() && v.children[j].0 == tok);
            assert(v.children[j].1 == c0);
            assert(inv(c0));
        }
        assert(inv(c1)) by {
            assert(c1.children == c0.children);
        }
        lemma_add_makes_key_present(c1, toks.drop_first(), data);
        let c2 = spec_add(c1, toks.drop_first(), data);
        lemma_set_child(v.children, tok, c2);
        assert(spec_get(v2, toks) == spec_get(c2, toks.drop_first()));
    }
}

/// After a present key is removed along its tokens it is gone: `key_exists`
/// no longer holds for it.
pub proof fn lemma_removed_clears_key<T>(v: TrieView<T>, toks: Seq<Seq<char>>)
    requires
        inv(v),
    ensures
        !spec_exists(spec_removed(v, toks), toks),
    decreases toks.len(),
{
    let v2 = spec_removed(v, toks);
    if toks.len() == 0 {
    } else {
        let tok = toks.first();
        if has_child(v.children, tok) {
            let j = child_index(v.children, tok);
            assert(0 <= j < v.children.len() && v.children[j].0 == tok);
            let c = child_at(v.children, tok);
            assert(v.children[j].1 == c);
            assert(inv(c));
            lemma_removed_clears_key(c, toks.drop_first());
            let c1 = spec_removed(c, toks.drop_first());
            let c2 = TrieView { count: lowered(c1.count), ..c1 };
            lemma_set_child(v.children, tok, c2);
            let cs2 = set_child(v.children, tok, c2);
            lemma_pruned_at(cs2, tok);
            if has_child(v2.children, tok) {
                assert(child_at(v2.children, tok) == c2);
                lemma_exists_ignores_count(c2, c1, toks.drop_first());
                assert(!spec_exists(c2, toks.drop_first()));
                assert(spec_get(v2, toks) == spec_get(c2, toks.drop_first()));
            } else {
                assert(spec_get(v2, toks) is None);
            }
        }
    }
}

/// After a key with at least one token is inserted and then removed, it is
/// absent.  (A key of no tokens flags the entry node itself; removal
/// deliberately leaves the entry's own flag in place, so such a key stays.)
pub proof fn lemma_add_then_remove_absent<T>(v: TrieView<T>, toks: Seq<Seq<char>>, data: Option<T>)
    requires
        inv(v),
        toks.len() > 0,
    ensures
        !spec_exists(spec_remove_entry(spec_add(v, toks, data), toks), toks),
{
    lemma_add_makes_key_present(v, toks, data);
    lemma_add_inv(v, toks, data);
    lemma_removed_clears_key(spec_add(v, toks, data), toks);
}

/// A present key makes its subtree weigh at least one.
pub proof fn lemma_exists_weight_pos<T>(v: TrieView<T>, toks: Seq<Seq<char>>)
    requires
        spec_exists(v, toks),
    ensures
        weight(v) >= 1,
    decreases toks.len(),
{
    if toks.len() == 0 {
    } else {
        let tok = toks.first();
        assert(has_child(v.children, tok));
        let j = child_index(v.children, tok);
        lemma_exists_weight_pos(v.children[j].1, toks.drop_first());
        lemma_weight_member(v.children, j);
    }
}

/// Two present keys, one a proper token-prefix of the other, make their
/// common subtree weigh at least two.
pub proof fn lemma_two_keys_weight<T>(v: TrieView<T>, t1: Seq<Seq<char>>, t2: Seq<Seq<char>>)
    requires
        spec_exists(v, t1),
        spec_exists(v, t2),
        t1.len() < t2.len(),
        t2.take(t1.len() as int) == t1,
    ensures
        weight(v) >= 2,
    decreases t2.len(),
{
    if t1.len() == 0 {
        assert(v.is_key_end);
        let tok = t2.first();
        assert(has_child(v.children, tok));
        let j = child_index(v.children, tok);
        lemma_exists_weight_pos(v.children[j].1, t2.drop_first());
        lemma_weight_member(v.children, j);
    } else {
        let tok = t1.first();
        assert(t2.take(t1.len() as int)[0] == t2[0]);
        assert(t2.first() == tok);
        assert(has_child(v.children, tok));
        let j = child_index(v.children, tok);
        let c = child_at(v.children, tok);
        assert(v.children[j].1 == c);
        assert forall|k: int| 0 <= k < t1.len() - 1 implies t2.drop_first().take(
            t1.len() as int - 1,
        )[k] == t1.drop_first()[k] by {
            assert(t1[k + 1] == t2.take(t1.len() as int)[k + 1]);
        }
        assert(t2.drop_first().take(t1.len() as int - 1) =~= t1.drop_first());
        lemma_two_keys_weight(c, t1.drop_first(), t2.drop_first());
        lemma_weight_member(v.children, j);
    }
}

/// Removing a key leaves every present proper token-prefix key present: the
/// prefix node still carries enough traversal count to survive pruning.
pub proof fn lemma_remove_keeps_prefix<T>(v: TrieView<T>, t1: Seq<Seq<char>>, t2: Seq<Seq<char>>)
    requires
        inv(v),
        spec_exists(v, t1),
        spec_exists(v, t2),
        t1.len() < t2.len(),
        t2.take(t1.len() as int) == t1,
    ensures
        spec_exists(spec_removed(v, t2), t1),
    decreases t2.len(),
{
    let v2 = spec_removed(v, t2);
    let tok = t2.first();
    assert(has_child(v.children, tok));
    let j = child_index(v.children, tok);
    assert(0 <= j < v.children.len() && v.children[j].0 == tok);
    let c = child_at(v.children, tok);
    assert(v.children[j].1 == c);
    assert(inv(c));
    let c1 = spec_removed(c, t2.drop_first());
    let c2 = TrieView { count: lowered(c1.count), ..c1 };
    let cs2 = set_child(v.children, tok, c2);
    lemma_set_child(v.children, tok, c2);
    if t1.len() == 0 {
        assert(v2.is_key_end == v.is_key_end);
    } else {
        assert(t2.take(t1.len() as int)[0] == t2[0]);
        assert(t1.first() == tok);
        assert(spec_exists(c, t1.drop_first()));
        assert(spec_exists(c, t2.drop_first()));
        assert forall|k: int| 0 <= k < t1.len() - 1 implies t2.drop_first().take(
            t1.len() as int - 1,
        )[k] == t1.drop_first()[k] by {
            assert(t1[k + 1] == t2.take(t1.len() as int)[k + 1]);
        }
        assert(t2.drop_first().take(t1.len() as int - 1) =~= t1.drop_first());
        lemma_remove_keeps_prefix(c, t1.drop_first(), t2.drop_first());
        lemma_removed_inv(c, t2.drop_first());
        assert(c1.count == c.count);
        lemma_two_keys_weight(c, t1.drop_first(), t2.drop_first());
        assert(c2.count != 0) by {
            if c.count == u64::MAX {
            } else {
                assert(weight(c) <= c.count);
            }
        }
        lemma_pruned_at(cs2, tok);
        assert(child_at(v2.children, tok) == c2);
        lemma_exists_ignores_count(c2, c1, t1.drop_first());
        assert(spec_get(v2, t1) == spec_get(c2, t1.drop_first()));
    }
}

/// Pruning after appending: the appended child survives exactly when its
/// count is not zero.
pub proof fn lemma_pruned_push<T>(cs: Seq<(Seq<char>, TrieView<T>)>, p: (Seq<char>, TrieView<T>))
    ensures
        p.1.count != 0 ==> pruned_children(cs.push(p)) == pruned_children(cs).push(p),
        p.1.count == 0 ==> pruned_children(cs.push(p)) == pruned_children(cs),
    decreases cs.len(),
{
    if cs.len() == 0 {
        assert(cs.push(p).first() == p);
        assert(cs.push(p).drop_first() =~= cs);
        assert(pruned_children(cs) =~= Seq::<(Seq<char>, TrieView<T>)>::empty());
        if p.1.count != 0 {
            assert(pruned_children(cs.push(p)) =~= seq![p] + pruned_children(cs));
            assert(seq![p] + pruned_children(cs) =~= pruned_children(cs).push(p));
        } else {
            assert(pruned_children(cs.push(p)) == pruned_children(cs));
        }
    } else {
        lemma_pruned_push(cs.drop_first(), p);
        assert(cs.push(p).first() == cs.first());
        assert(cs.push(p).drop_first() =~= cs.drop_first().push(p));
        if cs.first().1.count != 0 {
            if p.1.count != 0 {
                assert(seq![cs.first()] + pruned_children(cs.drop_first()).push(p)
                    =~= (seq![cs.first()] + pruned_children(cs.drop_first())).push(p));
            }
        }
    }
}

/// One add / remove cycle of any key returns the entry node to its child
/// count: the tree does not grow across repeated cycles.
pub proof fn lemma_add_remove_cycle_children<T>(
    v: TrieView<T>,
    toks: Seq<Seq<char>>,
    data: Option<T>,
)
    requires
        inv(v),
    ensures
        spec_remove_entry(spec_add(v, toks, data), toks).children.len() == v.children.len(),
{
    let v1 = spec_add(v, toks, data);
    lemma_add_makes_key_present(v, toks, data);
    lemma_add_inv(v, toks, data);
    if toks.len() == 0 {
        assert(spec_exists(v1, toks));
        lemma_pruned_id(v1.children);
    } else {
        let tok = toks.first();
        let existed = has_child(v.children, tok);
        let c0: TrieView<T> = if existed {
            child_at(v.children, tok)
        } else {
            empty_view()
        };
        let c1 = TrieView { count: bumped(c0.count), ..c0 };
        let c2a = spec_add(c1, toks.drop_first(), data);
        lemma_set_child(v.children, tok, c2a);
        let cs1 = set_child(v.children, tok, c2a);
        assert(v1.children == cs1);
        let c1r = spec_removed(c2a, toks.drop_first());
        let c2r = TrieView { count: lowered(c1r.count), ..c1r };
        let j1 = child_index(cs1, tok);
        assert(cs1[j1].1 == c2a);
        if existed {
            let j = child_index(v.children, tok);
            assert(cs1 == v.children.update(j, (tok, c2a))) by {
                lemma_child_index_unique(v.children, tok, j);
            }
            assert(cs1.len() == v.children.len());
        } else {
            assert(cs1 == v.children.push((tok, c2a)));
            assert(cs1.len() == v.children.len() + 1);
        }
        lemma_set_child(cs1, tok, c2r);
        let cs2 = set_child(cs1, tok, c2r);
        assert(cs2 == cs1.update(j1, (tok, c2r))) by {
            lemma_child_index_unique(cs1, tok, j1);
        }
        assert(cs2.len() == cs1.len());
        assert(c2a.count == c1.count);
        assert(c1r.count == c2a.count) by {
            assert(inv(c1)) by {
                assert(c1.children == c0.children);
                if existed {
                    let j = child_index(v.children, tok);
                    assert(v.children[j].1 == c0);
                    assert(inv(c0));
                }
            }
            lemma_add_inv(c1, toks.drop_first(), data);
            lemma_add_makes_key_present(c1, toks.drop_first(), data);
            lemma_removed_inv(c2a, toks.drop_first());
            assert(spec_exists(c2a, toks.drop_first()));
        }
        assert(spec_removed(v1, toks).children == pruned_children(cs2));
        if existed {
            assert(c0.count > 0) by {
                let j = child_index(v.children, tok);
                assert(v.children[j].1 == c0);
            }
            assert(c2r.count != 0) by {
                if c0.count >= u64::MAX - 1 {
                } else {
                    assert(c2r.count == c0.count);
                }
            }
            let j = child_index(v.children, tok);
            assert forall|k: int| 0 <= k < cs2.len() implies (#[trigger] cs2[k]).1.count != 0 by {
                if k == j1 {
                    assert(cs2[k] == (tok, c2r));
                } else {
                    assert(cs1[k] == v.children[k]);
                    assert(cs2[k] == v.children[k]);
                }
            }
            lemma_pruned_id(cs2);
        } else {
            assert(j1 == v.children.len()) by {
                lemma_child_index_unique(cs1, tok, v.children.len() as int);
            }
            assert(c2r.count == 0) by {
                assert(c1.count == 1);
            }
            assert(cs2 =~= v.children.push((tok, c2r)));
            lemma_pruned_push(v.children, (tok, c2r));
            assert(pruned_children(cs2) == pruned_children(v.children));
            lemma_pruned_id(v.children);
        }
    }
}

} // verus!
