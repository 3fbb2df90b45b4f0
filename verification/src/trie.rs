//! The trie itself: a recursive container keyed by token, holding an optional
//! payload, a terminal-key flag, a traversal reference count, and a tokenizer
//! shared with all descendants.

use vstd::prelude::*;
use crate::tokenizer::{Tokenizer, KeyCodec, tokens_match, views_of, tokens_known, spec_tokens, spec_detok, contains_seq, starts_with_seq, trim_spec, contains_str, starts_with_str, trim_str};
use crate::model::{TrieView, empty_view, has_child, child_index, child_at, set_child,
    pruned_children, bumped, lowered, spec_get, spec_exists, spec_add, spec_removed,
    spec_remove_entry, inv, lemma_child_index_unique, lemma_pruned_id, lemma_add_inv,
    lemma_removed_inv};

verus! {

broadcast use vstd::std_specs::vec::axiom_vec_index_decreases, vstd::seq::group_seq_axioms, vstd::seq_lib::group_seq_lib_default;

/// A hierarchical key-value index: keys are decomposed into ordered token
/// sequences by the node's tokenizer and stored along paths of the tree.
pub struct Trie<T> {
    count: u64,
    children: Vec<(String, Trie<T>)>,
    /// The payload stored at the node representing the final token of an
    /// inserted key; overwritten on re-insertion of the same key.
    pub data: Option<T>,
    is_key_end: bool,
    tokenizer: Tokenizer,
}

impl<T> Trie<T> {
    /// The mathematical value of this node and its whole subtree.
    pub closed spec fn tview(self) -> TrieView<T>
        decreases self,
    {
        TrieView {
            count: self.count,
            children: Seq::new(
                self.children@.len(),
                |i: int|
                    if 0 <= i < self.children@.len() {
                        (self.children@[i].0@, self.children@[i].1.tview())
                    } else {
                        (Seq::empty(), empty_view::<T>())
                    },
            ),
            data: self.data,
            is_key_end: self.is_key_end,
        }
    }
}

impl<T> View for Trie<T> {
    type V = TrieView<T>;

    open spec fn view(&self) -> TrieView<T> {
        self.tview()
    }
}

/// A mutable borrow of the `i`th child entry's subtree.
fn nth_child_mut<T>(v: &mut Vec<(String, Trie<T>)>, i: usize) -> (c: &mut Trie<T>)
    requires
        i < old(v).len(),
    ensures
        *c == old(v)@[i as int].1,
        final(v)@ == old(v)@.update(i as int, (old(v)@[i as int].0, *final(c))),
{
    &mut v[i].1
}

impl<T> Trie<T> {
    /// The tokenizer shared by this node and all its descendants.
    pub closed spec fn spec_tokenizer(self) -> Tokenizer {
        self.tokenizer
    }

    /// Whether the node is a well-formed tree root.
    pub open spec fn wf(self) -> bool {
        inv(self@)
    }

    /// Whether this node is the terminus of at least one present key.
    pub fn is_key_end(&self) -> (r: bool)
        ensures
            r == self@.is_key_end,
    {
        self.is_key_end
    }

    /// How many direct children the node currently holds.
    pub fn child_count(&self) -> (r: usize)
        ensures
            r == self@.children.len(),
    {
        self.children.len()
    }

    /// Creates an empty root whose tokenizer packs whole grapheme clusters
    /// into tokens of up to `length` bytes.
    pub fn with_slice(length: usize) -> (r: Self)
        ensures
            r@ == empty_view::<T>(),
            r.spec_tokenizer() == Tokenizer::Slice(length),
            r.wf(),
    {
        let r = Trie {
            children: Vec::new(),
            count: 0,
            data: None,
            is_key_end: false,
            tokenizer: Tokenizer::Slice(length),
        };
        proof {
            assert(r.children@.len() == 0);
            assert(r@.children =~= empty_view::<T>().children);
            assert(r@ =~= empty_view::<T>());
        }
        r
    }

    /// Creates an empty root whose tokenizer splits keys on the literal
    /// `delimiter`.
    pub fn with_delimiter(delimiter: String) -> (r: Self)
        ensures
            r@ == empty_view::<T>(),
            r.spec_tokenizer() == Tokenizer::Delimiter(delimiter),
            r.wf(),
    {
        let r = Trie {
            children: Vec::new(),
            count: 0,
            data: None,
            is_key_end: false,
            tokenizer: Tokenizer::Delimiter(delimiter),
        };
        proof {
            assert(r.children@.len() == 0);
            assert(r@.children =~= empty_view::<T>().children);
            assert(r@ =~= empty_view::<T>());
        }
        r
    }

    /// Creates an empty root that tokenizes with the caller's own function
    /// pair; every node of the tree shares the same pair.
    pub fn with_custom_tokenization(codec: KeyCodec) -> (r: Self)
        ensures
            r@ == empty_view::<T>(),
            r.spec_tokenizer() == Tokenizer::Custom(codec),
            r.wf(),
    {
        let r = Trie {
            children: Vec::new(),
            count: 0,
            data: None,
            is_key_end: false,
            tokenizer: Tokenizer::Custom(codec),
        };
        proof {
            assert(r.children@.len() == 0);
            assert(r@.children =~= empty_view::<T>().children);
            assert(r@ =~= empty_view::<T>());
        }
        r
    }

    /// Creates a new nearly blank node carrying the same tokenizer as this
    /// one (shared, not deep-copied, for a custom function pair) — used
    /// whenever a new child must be materialized.
    pub fn new_from_current(&self) -> (r: Self)
        ensures
            r@ == empty_view::<T>(),
            r.spec_tokenizer() == self.spec_tokenizer(),
            r.wf(),
    {
        let r = Trie {
            children: Vec::new(),
            count: 0,
            data: None,
            is_key_end: false,
            tokenizer: self.tokenizer.duplicate(),
        };
        proof {
            assert(r.children@.len() == 0);
            assert(r@.children =~= empty_view::<T>().children);
            assert(r@ =~= empty_view::<T>());
        }
        r
    }

    /// The position of the child labelled `tok`, if one exists.
    fn find_child(children: &Vec<(String, Trie<T>)>, tok: &String) -> (r: Option<usize>)
        ensures
            (match r {
                Some(j) => j < children@.len() && children@[j as int].0@ == tok@,
                None => forall|k: int| 0 <= k < children@.len() ==> children@[k].0@ != tok@,
            }),
    {
        let mut j: usize = 0;
        while j < children.len()
            invariant
                j <= children@.len(),
                forall|k: int| 0 <= k < j ==> children@[k].0@ != tok@,
            decreases children@.len() - j,
        {
            if children[j].0 == *tok {
                return Some(j);
            }
            j = j + 1;
        }
        None
    }

    /// Walks the tokens from position `i` down from this node.
    fn lookup<'a>(&'a self, toks: &Vec<String>, i: usize) -> (r: Option<&'a Trie<T>>)
        requires
            inv(self@),
            i <= toks@.len(),
        ensures
            (match r {
                Some(n) => spec_get(self@, views_of(toks@).skip(i as int)) == Some(n@) && inv(n@),
                None => spec_get(self@, views_of(toks@).skip(i as int)) is None,
            }),
        decreases toks@.len() - i,
    {
        if i == toks.len() {
            proof {
                assert(views_of(toks@).skip(i as int) =~= Seq::<Seq<char>>::empty());
            }
            Some(self)
        } else {
            let ghost toksv = views_of(toks@).skip(i as int);
            proof {
                assert(toksv.first() == toks@[i as int]@);
                assert(toksv.drop_first() =~= views_of(toks@).skip(i as int + 1));
            }
            match Self::find_child(&self.children, &toks[i]) {
                Some(j) => {
                    proof {
                        assert(self@.children[j as int] == (
                            self.children@[j as int].0@,
                            self.children@[j as int].1@,
                        ));
                        lemma_child_index_unique(self@.children, toks@[i as int]@, j as int);
                    }
                    let c: &Trie<T> = &self.children[j].1;
                    c.lookup(toks, i + 1)
                }
                None => {
                    proof {
                        assert(!has_child(self@.children, toksv.first())) by {
                            if has_child(self@.children, toksv.first()) {
                                let k = child_index(self@.children, toksv.first());
                                assert(self@.children[k] == (
                                    self.children@[k].0@,
                                    self.children@[k].1@,
                                ));
                            }
                        }
                    }
                    None
                }
            }
        }
    }

    /// Checks whether `key` is present: its tokens resolve to a node that
    /// ends a currently-present key.
    pub fn key_exists(&self, key: &str) -> (r: bool)
        requires
            self.wf(),
        ensures
            exists|toks: Seq<Seq<char>>|
                #[trigger] tokens_match(self.spec_tokenizer(), key@, toks) && r == spec_exists(
                    self@,
                    toks,
                ),
    {
        let tokens = self.tokenizer.tokenize(key.to_owned());
        let ghost toksv = views_of(tokens@);
        proof {
            assert(views_of(tokens@).skip(0) =~= toksv);
        }
        match self.lookup(&tokens, 0) {
            Some(node) => node.is_key_end,
            None => false,
        }
    }

    /// Resolves `key` to the node its tokens lead to, even when that node is
    /// not a key terminus; `None` on the first missing token.
    pub fn get<'a>(&'a self, key: &str) -> (r: Option<&'a Trie<T>>)
        requires
            self.wf(),
        ensures
            exists|toks: Seq<Seq<char>>|
                #[trigger] tokens_match(self.spec_tokenizer(), key@, toks) && (match r {
                    Some(n) => spec_get(self@, toks) == Some(n@) && inv(n@),
                    None => spec_get(self@, toks) is None,
                }),
    {
        let tokens = self.tokenizer.tokenize(key.to_owned());
        let ghost toksv = views_of(tokens@);
        proof {
            assert(views_of(tokens@).skip(0) =~= toksv);
        }
        self.lookup(&tokens, 0)
    }

    /// Adds the complete `key`, creating nodes as needed: every node reached
    /// by a token gains one traversal count, and the final node takes the
    /// payload and becomes a key end.
    pub fn add(&mut self, key: &str, data: Option<T>)
        requires
            old(self).wf(),
        ensures
            final(self).wf(),
            final(self).spec_tokenizer() == old(self).spec_tokenizer(),
            exists|toks: Seq<Seq<char>>|
                #[trigger] tokens_match(old(self).spec_tokenizer(), key@, toks) && final(self)@
                    == spec_add(old(self)@, toks, data),
    {
        let tokens = self.tokenizer.tokenize(key.to_owned());
        let ghost toksv = views_of(tokens@);
        proof {
            assert(views_of(tokens@).skip(0) =~= toksv);
        }
        self.add_walk(&tokens, 0, data);
        proof {
            lemma_add_inv(old(self)@, toksv, data);
        }
    }

    /// Insertion along the token path from position `i`.
    fn add_walk(&mut self, toks: &Vec<String>, i: usize, data: Option<T>)
        requires
            inv(old(self)@),
            i <= toks@.len(),
        ensures
            final(self)@ == spec_add(old(self)@, views_of(toks@).skip(i as int), data),
            final(self).spec_tokenizer() == old(self).spec_tokenizer(),
        decreases toks@.len() - i,
    {
        if i == toks.len() {
            self.data = data;
            self.is_key_end = true;
            proof {
                assert(views_of(toks@).skip(i as int) =~= Seq::<Seq<char>>::empty());
                assert(self@ =~= spec_add(old(self)@, views_of(toks@).skip(i as int), data));
            }
        } else {
            let ghost ov = old(self)@;
            let ghost toksv = views_of(toks@).skip(i as int);
            let ghost tokv = toks@[i as int]@;
            proof {
                assert(toksv.first() == tokv);
                assert(toksv.drop_first() =~= views_of(toks@).skip(i as int + 1));
            }
            let ghost existed: bool;
            let idx: usize;
            match Self::find_child(&self.children, &toks[i]) {
                Some(j) => {
                    idx = j;
                    proof {
                        existed = true;
                        assert(ov.children[j as int] == (
                            self.children@[j as int].0@,
                            self.children@[j as int].1@,
                        ));
                        lemma_child_index_unique(ov.children, tokv, j as int);
                    }
                }
                None => {
                    proof {
                        existed = false;
                        assert(!has_child(ov.children, tokv)) by {
                            if has_child(ov.children, tokv) {
                                let k = child_index(ov.children, tokv);
                                assert(ov.children[k] == (
                                    self.children@[k].0@,
                                    self.children@[k].1@,
                                ));
                            }
                        }
                    }
                    let child = self.new_from_current();
                    let label = toks[i].clone();
                    self.children.push((label, child));
                    idx = self.children.len() - 1;
                    proof {
                        assert(self@.children =~= ov.children.push((tokv, empty_view::<T>())));
                    }
                }
            }
            let ghost c0: TrieView<T> = if existed {
                child_at(ov.children, tokv)
            } else {
                empty_view()
            };
            proof {
                assert(self@.children[idx as int] == (
                    self.children@[idx as int].0@,
                    self.children@[idx as int].1@,
                ));
                assert(self.children@[idx as int].1@ == c0);
                assert(self.children@[idx as int].0@ == tokv);
                assert(inv(c0)) by {
                    if existed {
                        let k = child_index(ov.children, tokv);
                        assert(ov.children[k].1 == c0);
                    }
                }
            }
            let ghost mid_children = self.children@;
            let c = nth_child_mut(&mut self.children, idx);
            if c.count < u64::MAX {
                c.count = c.count + 1;
            }
            proof {
                assert(c@ =~= (TrieView { count: bumped(c0.count), ..c0 }));
                assert(inv(c@)) by {
                    assert(c@.children == c0.children);
                }
            }
            c.add_walk(toks, i + 1, data);
            proof {
                let c1 = TrieView { count: bumped(c0.count), ..c0 };
                let c2 = spec_add(c1, toksv.drop_first(), data);
                assert(final(c)@ == c2);
                assert(self@.children =~= set_child(ov.children, tokv, c2)) by {
                    if existed {
                        assert(set_child(ov.children, tokv, c2) == ov.children.update(
                            child_index(ov.children, tokv),
                            (tokv, c2),
                        ));
                    }
                }
                assert(self@ =~= spec_add(ov, toksv, data));
            }
        }
    }

    /// Removes every direct child whose count is zero, in place, keeping the
    /// others in their original order.
    fn prune_unused_children(&mut self)
        ensures
            final(self)@ == (TrieView {
                children: pruned_children(old(self)@.children),
                ..old(self)@
            }),
            final(self).spec_tokenizer() == old(self).spec_tokenizer(),
    {
        let ghost ov = old(self)@;
        let mut i: usize = 0;
        proof {
            assert(self@.children.skip(0) =~= ov.children);
            assert(self@.children.take(0) =~= Seq::<(Seq<char>, TrieView<T>)>::empty());
        }
        while i < self.children.len()
            invariant
                i <= self.children@.len(),
                self.count == old(self).count,
                self.data == old(self).data,
                self.is_key_end == old(self).is_key_end,
                self.tokenizer == old(self).tokenizer,
                pruned_children(ov.children) =~= self@.children.take(i as int) + pruned_children(
                    self@.children.skip(i as int),
                ),
            decreases self.children@.len() - i,
        {
            let ghost pre = self@.children;
            proof {
                assert(pre[i as int] == (self.children@[i as int].0@, self.children@[i as int].1@));
                assert(pre.skip(i as int).first() == pre[i as int]);
                assert(pre.skip(i as int).drop_first() =~= pre.skip(i as int + 1));
            }
            if self.children[i].1.count == 0 {
                self.children.remove(i);
                proof {
                    assert(self@.children =~= pre.remove(i as int));
                    assert(self@.children.take(i as int) =~= pre.take(i as int));
                    assert(self@.children.skip(i as int) =~= pre.skip(i as int + 1));
                }
            } else {
                i = i + 1;
                proof {
                    assert(self@.children.take(i as int) =~= pre.take(i as int - 1).push(
                        pre[i as int - 1],
                    ));
                    assert(pruned_children(pre.skip(i as int - 1)) =~= seq![pre[i as int - 1]]
                        + pruned_children(pre.skip(i as int)));
                    assert(pre.take(i as int - 1) + (seq![pre[i as int - 1]] + pruned_children(
                        pre.skip(i as int),
                    )) =~= (pre.take(i as int - 1).push(pre[i as int - 1])) + pruned_children(
                        pre.skip(i as int),
                    ));
                }
            }
        }
        proof {
            assert(self@.children.skip(i as int) =~= Seq::<(Seq<char>, TrieView<T>)>::empty());
            assert(self@.children.take(i as int) =~= self@.children);
            assert(self@ =~= (TrieView { children: pruned_children(ov.children), ..ov }));
        }
    }

    /// Removal along the token path from position `i`: the deepest node loses
    /// its key-end flag, each node below the entry loses one count, and each
    /// node's zero-count children are pruned on the way back up.
    fn remove_walk(&mut self, toks: &Vec<String>, i: usize)
        requires
            inv(old(self)@),
            i <= toks@.len(),
        ensures
            final(self)@ == spec_removed(old(self)@, views_of(toks@).skip(i as int)),
            final(self).spec_tokenizer() == old(self).spec_tokenizer(),
        decreases toks@.len() - i,
    {
        if i == toks.len() {
            self.is_key_end = false;
            self.prune_unused_children();
            proof {
                assert(views_of(toks@).skip(i as int) =~= Seq::<Seq<char>>::empty());
                assert(self@ =~= spec_removed(old(self)@, views_of(toks@).skip(i as int)));
            }
        } else {
            let ghost ov = old(self)@;
            let ghost toksv = views_of(toks@).skip(i as int);
            let ghost tokv = toks@[i as int]@;
            proof {
                assert(toksv.first() == tokv);
                assert(toksv.drop_first() =~= views_of(toks@).skip(i as int + 1));
            }
            match Self::find_child(&self.children, &toks[i]) {
                None => {
                    proof {
                        assert(!has_child(ov.children, tokv)) by {
                            if has_child(ov.children, tokv) {
                                let k = child_index(ov.children, tokv);
                                assert(ov.children[k] == (
                                    self.children@[k].0@,
                                    self.children@[k].1@,
                                ));
                            }
                        }
                        assert(self@ =~= spec_removed(ov, toksv));
                    }
                }
                Some(j) => {
                    proof {
                        assert(ov.children[j as int] == (
                            self.children@[j as int].0@,
                            self.children@[j as int].1@,
                        ));
                        lemma_child_index_unique(ov.children, tokv, j as int);
                        assert(inv(ov.children[j as int].1));
                    }
                    let ghost c0 = child_at(ov.children, tokv);
                    let c = nth_child_mut(&mut self.children, j);
                    c.remove_walk(toks, i + 1);
                    if c.count > 0 && c.count < u64::MAX {
                        c.count = c.count - 1;
                    }
                    proof {
                        let c1 = spec_removed(c0, toksv.drop_first());
                        assert(c1.count == c0.count);
                        assert(final(c)@ =~= (TrieView { count: lowered(c1.count), ..c1 }));
                    }
                    proof {
                        let c1 = spec_removed(c0, toksv.drop_first());
                        let c2 = TrieView { count: lowered(c1.count), ..c1 };
                        assert(self@.children =~= set_child(ov.children, tokv, c2)) by {
                            assert(set_child(ov.children, tokv, c2) == ov.children.update(
                                child_index(ov.children, tokv),
                                (tokv, c2),
                            ));
                        }
                    }
                    self.prune_unused_children();
                    proof {
                        let c1 = spec_removed(c0, toksv.drop_first());
                        let c2 = TrieView { count: lowered(c1.count), ..c1 };
                        assert(set_child(ov.children, tokv, c2) == ov.children.update(
                            child_index(ov.children, tokv),
                            (tokv, c2),
                        ));
                        assert(self@ =~= spec_removed(ov, toksv));
                    }
                }
            }
        }
    }

    /// Removes `key`: a no-op unless the key is present; otherwise the
    /// deepest node loses its key-end flag, every node its tokens reach
    /// loses one traversal count, and zero-count children are pruned.
    pub fn remove(&mut self, key: &str)
        requires
            old(self).wf(),
        ensures
            final(self).wf(),
            final(self).spec_tokenizer() == old(self).spec_tokenizer(),
            exists|toks: Seq<Seq<char>>|
                #[trigger] tokens_match(old(self).spec_tokenizer(), key@, toks) && final(self)@
                    == spec_remove_entry(old(self)@, toks),
    {
        let tokens = self.tokenizer.tokenize(key.to_owned());
        let ghost toksv = views_of(tokens@);
        proof {
            assert(views_of(tokens@).skip(0) =~= toksv);
        }
        let present = match self.lookup(&tokens, 0) {
            Some(node) => node.is_key_end,
            None => false,
        };
        proof {
            assert(present == spec_exists(self@, toksv));
        }
        if !present {
            proof {
                assert(self@ == spec_remove_entry(old(self)@, toksv));
            }
            return ;
        }
        if tokens.len() == 0 {
            self.prune_unused_children();
            proof {
                assert(toksv.len() == 0);
                lemma_pruned_id(old(self)@.children);
                assert(self@ =~= spec_remove_entry(old(self)@, toksv));
                assert(inv(self@)) by {
                    assert(self@.children == old(self)@.children);
                }
            }
            return ;
        }
        self.remove_walk(&tokens, 0);
        proof {
            lemma_removed_inv(old(self)@, toksv);
        }
    }
}

impl<T> Default for Trie<T> {
    /// An empty root with the per-character strategy: fixed width of one.
    fn default() -> (r: Self)
        ensures
            r@ == empty_view::<T>(),
            r.spec_tokenizer() == Tokenizer::Slice(1),
            r.wf(),
    {
        Trie::with_slice(1)
    }
}

/// The nodes a fuzzy query returns, scanning the parent's children in order:
/// each child whose token contains the fragment is re-resolved from the
/// parent by tokenizing that token, and the resolved nodes are collected.
pub open spec fn fuzzy_nodes<T>(
    p: TrieView<T>,
    tk: Tokenizer,
    frag: Seq<char>,
    cs: Seq<(Seq<char>, TrieView<T>)>,
) -> Seq<TrieView<T>>
    decreases cs.len(),
{
    if cs.len() == 0 {
        Seq::empty()
    } else {
        let rest = fuzzy_nodes(p, tk, frag, cs.drop_first());
        if contains_seq(cs.first().0, frag) {
            match spec_get(p, spec_tokens(tk, cs.first().0)) {
                Some(n) => seq![n] + rest,
                None => rest,
            }
        } else {
            rest
        }
    }
}

/// What a fuzzy query on `key` returns from the tree `v`.
pub open spec fn spec_fuzzy<T>(tk: Tokenizer, v: TrieView<T>, key: Seq<char>) -> Seq<TrieView<T>> {
    let toks = spec_tokens(tk, key);
    if toks.len() == 0 {
        Seq::empty()
    } else {
        match spec_get(v, toks.drop_last()) {
            Some(p) => fuzzy_nodes(p, tk, toks.last(), p.children),
            None => Seq::empty(),
        }
    }
}

/// The candidate keys a partial-path query reconstructs: one per child whose
/// token starts with the trimmed fragment, each rebuilt by appending that
/// token to the exact prefix tokens and reassembling.
pub open spec fn partial_candidates<T>(
    tk: Tokenizer,
    prefix: Seq<Seq<char>>,
    frag: Seq<char>,
    cs: Seq<(Seq<char>, TrieView<T>)>,
) -> Seq<Seq<char>>
    decreases cs.len(),
{
    if cs.len() == 0 {
        Seq::empty()
    } else {
        let rest = partial_candidates(tk, prefix, frag, cs.drop_first());
        if starts_with_seq(cs.first().0, trim_spec(frag)) {
            seq![spec_detok(tk, prefix.push(cs.first().0))] + rest
        } else {
            rest
        }
    }
}

/// What a partial-path query on `key` returns from the tree `v`: the key
/// itself when its last token resolves as a complete token under the prefix
/// node, else the reconstructed candidates.
pub open spec fn spec_partial<T>(tk: Tokenizer, v: TrieView<T>, key: Seq<char>) -> Seq<Seq<char>> {
    let toks = spec_tokens(tk, key);
    let frag = if toks.len() == 0 {
        Seq::<char>::empty()
    } else {
        toks.last()
    };
    let prefix = if toks.len() == 0 {
        toks
    } else {
        toks.drop_last()
    };
    match spec_get(v, prefix) {
        None => Seq::empty(),
        Some(p) => if spec_get(p, spec_tokens(tk, frag)) is Some {
            seq![key]
        } else {
            partial_candidates(tk, prefix, frag, p.children)
        },
    }
}

/// Every key that ends in the subtree `v`, the subtree's own key `key`
/// included, each reconstructed by reassembling the parent key with the
/// child's token at every level, in child order.
pub open spec fn collected_keys<T>(tk: Tokenizer, v: TrieView<T>, key: Seq<char>) -> Seq<Seq<char>>
    decreases v, 1int,
{
    (if v.is_key_end {
        seq![key]
    } else {
        Seq::empty()
    }) + collected_children(tk, v.children, key)
}

/// The keys collected below each child in order.
pub open spec fn collected_children<T>(
    tk: Tokenizer,
    cs: Seq<(Seq<char>, TrieView<T>)>,
    key: Seq<char>,
) -> Seq<Seq<char>>
    decreases cs, 0int,
{
    if cs.len() == 0 {
        Seq::empty()
    } else {
        collected_keys(tk, cs.first().1, spec_detok(tk, seq![key, cs.first().0]))
            + collected_children(tk, cs.drop_first(), key)
    }
}

/// What a prefix enumeration returns: the keys collected under each
/// candidate that resolves, in candidate order.
pub open spec fn prefix_results<T>(
    tk: Tokenizer,
    root: TrieView<T>,
    cands: Seq<Seq<char>>,
) -> Seq<Seq<char>>
    decreases cands.len(),
{
    if cands.len() == 0 {
        Seq::empty()
    } else {
        (match spec_get(root, spec_tokens(tk, cands.first())) {
            Some(t) => collected_keys(tk, t, cands.first()),
            None => Seq::empty(),
        }) + prefix_results(tk, root, cands.drop_first())
    }
}

/// A copy of a token list (the strings are cloned, views unchanged).
fn clone_tokens(v: &Vec<String>) -> (r: Vec<String>)
    ensures
        views_of(r@) == views_of(v@),
{
    let mut r: Vec<String> = Vec::new();
    let mut m: usize = 0;
    while m < v.len()
        invariant
            m <= v@.len(),
            views_of(r@) =~= views_of(v@).take(m as int),
        decreases v@.len() - m,
    {
        let ghost before = views_of(r@);
        r.push(v[m].clone());
        proof {
            assert(views_of(r@) =~= before.push(v@[m as int]@));
            assert(views_of(r@) =~= views_of(v@).take(m as int + 1));
        }
        m = m + 1;
    }
    proof {
        assert(views_of(v@).take(v@.len() as int) =~= views_of(v@));
    }
    r
}

impl<T> Trie<T> {
    /// Fuzzy query: walk all tokens but the last exactly (an unresolvable
    /// prefix yields an empty result); at the reached parent, select every
    /// direct child whose token contains the last token as a substring, and
    /// collect the nodes those tokens resolve to.  No ordering is promised
    /// beyond the current child order.
    pub fn fuzzy_get<'a>(&'a self, key: &str) -> (r: Vec<&'a Trie<T>>)
        requires
            self.wf(),
        ensures
            tokens_known(self.spec_tokenizer()) ==> r@.map_values(|n: &Trie<T>| n@) == spec_fuzzy(
                self.spec_tokenizer(),
                self@,
                key@,
            ),
    {
        let ghost tk = self.spec_tokenizer();
        let ghost fulltoks = spec_tokens(tk, key@);
        let mut tokens = self.tokenizer.tokenize(key.to_owned());
        let ghost allv = views_of(tokens@);
        let last_token = tokens.pop();
        let mut items: Vec<&'a Trie<T>> = Vec::new();
        match last_token {
            None => {
                proof {
                    assert(items@.map_values(|n: &Trie<T>| n@) =~= Seq::<TrieView<T>>::empty());
                }
                items
            }
            Some(frag) => {
                proof {
                    assert(views_of(tokens@) =~= allv.drop_last());
                    assert(frag@ == allv.last());
                    assert(views_of(tokens@).skip(0) =~= views_of(tokens@));
                }
                match self.lookup(&tokens, 0) {
                    None => {
                        proof {
                            assert(items@.map_values(|n: &Trie<T>| n@) =~= Seq::<
                                TrieView<T>,
                            >::empty());
                        }
                        items
                    }
                    Some(parent) => {
                        let ghost pv = parent@;
                        let ghost csv = pv.children;
                        let mut j: usize = 0;
                        proof {
                            assert(csv.skip(0) =~= csv);
                            assert(items@.map_values(|n: &Trie<T>| n@) =~= Seq::<
                                TrieView<T>,
                            >::empty());
                        }
                        while j < parent.children.len()
                            invariant
                                j <= parent.children@.len(),
                                inv(pv),
                                pv == parent@,
                                csv == pv.children,
                                tk == self.spec_tokenizer(),
                                self.wf(),
                                tokens_known(tk) ==> items@.map_values(|n: &Trie<T>| n@)
                                    + fuzzy_nodes(pv, tk, frag@, csv.skip(j as int)) =~= fuzzy_nodes(
                                    pv,
                                    tk,
                                    frag@,
                                    csv,
                                ),
                            decreases parent.children@.len() - j,
                        {
                            let ghost before = items@.map_values(|n: &Trie<T>| n@);
                            proof {
                                assert(csv[j as int] == (
                                    parent.children@[j as int].0@,
                                    parent.children@[j as int].1.tview(),
                                ));
                                assert(csv.skip(j as int).first() == csv[j as int]);
                                assert(csv.skip(j as int).drop_first() =~= csv.skip(j as int + 1));
                            }
                            let ktok: &String = &parent.children[j].0;
                            if contains_str(ktok.as_str(), frag.as_str()) {
                                let sub_tokens = self.tokenizer.tokenize(ktok.clone());
                                proof {
                                    assert(views_of(sub_tokens@).skip(0) =~= views_of(
                                        sub_tokens@,
                                    ));
                                }
                                match parent.lookup(&sub_tokens, 0) {
                                    Some(n) => {
                                        items.push(n);
                                        proof {
                                            assert(items@.map_values(|n: &Trie<T>| n@)
                                                =~= before.push(n@));
                                            if tokens_known(tk) {
                                                assert(views_of(sub_tokens@) == spec_tokens(
                                                    tk,
                                                    csv[j as int].0,
                                                ));
                                                assert(fuzzy_nodes(pv, tk, frag@, csv.skip(j as int))
                                                    =~= seq![n@] + fuzzy_nodes(
                                                    pv,
                                                    tk,
                                                    frag@,
                                                    csv.skip(j as int + 1),
                                                ));
                                                assert(before.push(n@) + fuzzy_nodes(
                                                    pv,
                                                    tk,
                                                    frag@,
                                                    csv.skip(j as int + 1),
                                                ) =~= before + fuzzy_nodes(
                                                    pv,
                                                    tk,
                                                    frag@,
                                                    csv.skip(j as int),
                                                ));
                                            }
                                        }
                                    }
                                    None => {
                                        proof {
                                            if tokens_known(tk) {
                                                assert(views_of(sub_tokens@) == spec_tokens(
                                                    tk,
                                                    csv[j as int].0,
                                                ));
                                                assert(fuzzy_nodes(pv, tk, frag@, csv.skip(j as int))
                                                    =~= fuzzy_nodes(
                                                    pv,
                                                    tk,
                                                    frag@,
                                                    csv.skip(j as int + 1),
                                                ));
                                            }
                                        }
                                    }
                                }
                            } else {
                                proof {
                                    if tokens_known(tk) {
                                        assert(fuzzy_nodes(pv, tk, frag@, csv.skip(j as int))
                                            =~= fuzzy_nodes(pv, tk, frag@, csv.skip(j as int + 1)));
                                    }
                                }
                            }
                            j = j + 1;
                        }
                        proof {
                            assert(csv.skip(j as int) =~= Seq::<(Seq<char>, TrieView<T>)>::empty());
                            assert(fuzzy_nodes(pv, tk, frag@, csv.skip(j as int)) =~= Seq::<
                                TrieView<T>,
                            >::empty());
                        }
                        items
                    }
                }
            }
        }
    }

    /// Partial-path query: walk all tokens but the last exactly; when the
    /// last token resolves as a complete token under the reached node, return
    /// the original key alone; otherwise return one reconstructed key per
    /// direct child whose token starts with the whitespace-trimmed last
    /// token.
    pub fn get_keys_by_partial_path(&self, key: &str) -> (r: Vec<String>)
        requires
            self.wf(),
        ensures
            tokens_known(self.spec_tokenizer()) ==> views_of(r@) == spec_partial(
                self.spec_tokenizer(),
                self@,
                key@,
            ),
    {
        let ghost tk = self.spec_tokenizer();
        let mut tokens = self.tokenizer.tokenize(key.to_owned());
        let ghost allv = views_of(tokens@);
        let last_token = match tokens.pop() {
            Some(t) => t,
            None => String::new(),
        };
        proof {
            if allv.len() == 0 {
                assert(views_of(tokens@) =~= allv);
                assert(last_token@ =~= Seq::<char>::empty());
            } else {
                assert(views_of(tokens@) =~= allv.drop_last());
                assert(last_token@ == allv.last());
            }
            assert(views_of(tokens@).skip(0) =~= views_of(tokens@));
        }
        let mut out: Vec<String> = Vec::new();
        match self.lookup(&tokens, 0) {
            None => {
                proof {
                    assert(views_of(out@) =~= Seq::<Seq<char>>::empty());
                }
                out
            }
            Some(parent) => {
                let ghost pv = parent@;
                let ghost csv = pv.children;
                let frag_tokens = self.tokenizer.tokenize(last_token.clone());
                proof {
                    assert(views_of(frag_tokens@).skip(0) =~= views_of(frag_tokens@));
                }
                let found = match parent.lookup(&frag_tokens, 0) {
                    Some(_) => true,
                    None => false,
                };
                if found {
                    out.push(key.to_owned());
                    proof {
                        assert(views_of(out@) =~= Seq::<Seq<char>>::empty().push(key@));
                        assert(views_of(out@) =~= seq![key@]);
                    }
                    return out;
                }
                let trimmed = trim_str(last_token.as_str()).to_owned();
                let mut j: usize = 0;
                proof {
                    assert(csv.skip(0) =~= csv);
                    assert(views_of(out@) =~= Seq::<Seq<char>>::empty());
                }
                while j < parent.children.len()
                    invariant
                        j <= parent.children@.len(),
                        pv == parent@,
                        csv == pv.children,
                        tk == self.spec_tokenizer(),
                        trimmed@ == trim_spec(last_token@),
                        tokens_known(tk) ==> views_of(out@) + partial_candidates(
                            tk,
                            views_of(tokens@),
                            last_token@,
                            csv.skip(j as int),
                        ) =~= partial_candidates(tk, views_of(tokens@), last_token@, csv),
                    decreases parent.children@.len() - j,
                {
                    let ghost before = views_of(out@);
                    proof {
                        assert(csv[j as int] == (
                            parent.children@[j as int].0@,
                            parent.children@[j as int].1.tview(),
                        ));
                        assert(csv.skip(j as int).first() == csv[j as int]);
                        assert(csv.skip(j as int).drop_first() =~= csv.skip(j as int + 1));
                    }
                    let ktok: &String = &parent.children[j].0;
                    if starts_with_str(ktok.as_str(), trimmed.as_str()) {
                        let mut t = clone_tokens(&tokens);
                        let ghost tv = views_of(t@);
                        t.push(ktok.clone());
                        proof {
                            assert(views_of(t@) =~= views_of(tokens@).push(csv[j as int].0));
                        }
                        let rebuilt = self.tokenizer.detokenize(t);
                        out.push(rebuilt);
                        proof {
                            assert(views_of(out@) =~= before.push(out@.last()@));
                            if tokens_known(tk) {
                                assert(out@.last()@ == spec_detok(
                                    tk,
                                    views_of(tokens@).push(csv[j as int].0),
                                ));
                                assert(partial_candidates(
                                    tk,
                                    views_of(tokens@),
                                    last_token@,
                                    csv.skip(j as int),
                                ) =~= seq![out@.last()@] + partial_candidates(
                                    tk,
                                    views_of(tokens@),
                                    last_token@,
                                    csv.skip(j as int + 1),
                                ));
                                assert(before.push(out@.last()@) + partial_candidates(
                                    tk,
                                    views_of(tokens@),
                                    last_token@,
                                    csv.skip(j as int + 1),
                                ) =~= before + partial_candidates(
                                    tk,
                                    views_of(tokens@),
                                    last_token@,
                                    csv.skip(j as int),
                                ));
                            }
                        }
                    } else {
                        proof {
                            if tokens_known(tk) {
                                assert(partial_candidates(
                                    tk,
                                    views_of(tokens@),
                                    last_token@,
                                    csv.skip(j as int),
                                ) =~= partial_candidates(
                                    tk,
                                    views_of(tokens@),
                                    last_token@,
                                    csv.skip(j as int + 1),
                                ));
                            }
                        }
                    }
                    j = j + 1;
                }
                proof {
                    assert(csv.skip(j as int) =~= Seq::<(Seq<char>, TrieView<T>)>::empty());
                    assert(partial_candidates(tk, views_of(tokens@), last_token@, csv.skip(j as int))
                        =~= Seq::<Seq<char>>::empty());
                }
                out
            }
        }
    }

    /// Collects into `keys` every key that ends in this subtree, `key` being
    /// the key this node itself stands for, reassembling the child keys one
    /// level at a time with the entry node's tokenizer.
    fn get_keys_recursive(&self, tokenizer: &Tokenizer, key: &String, keys: &mut Vec<String>)
        ensures
            tokens_known(*tokenizer) ==> views_of(final(keys)@) == views_of(old(keys)@)
                + collected_keys(*tokenizer, self@, key@),
        decreases self,
    {
        let ghost tk = *tokenizer;
        let ghost base = views_of(keys@);
        if self.is_key_end {
            keys.push(key.clone());
            proof {
                assert(views_of(keys@) =~= base.push(key@));
                assert(views_of(keys@) =~= base + seq![key@]);
            }
        }
        let ghost csv = self@.children;
        let mut j: usize = 0;
        proof {
            assert(csv.skip(0) =~= csv);
            assert(views_of(keys@) + collected_children(tk, csv, key@) =~= base + collected_keys(
                tk,
                self@,
                key@,
            ));
        }
        while j < self.children.len()
            invariant
                j <= self.children@.len(),
                csv == self@.children,
                tk == *tokenizer,
                tokens_known(tk) ==> views_of(keys@) + collected_children(
                    tk,
                    csv.skip(j as int),
                    key@,
                ) =~= base + collected_keys(tk, self@, key@),
            decreases self.children@.len() - j,
        {
            proof {
                assert(csv[j as int] == (
                    self.children@[j as int].0@,
                    self.children@[j as int].1.tview(),
                ));
                assert(csv.skip(j as int).first() == csv[j as int]);
                assert(csv.skip(j as int).drop_first() =~= csv.skip(j as int + 1));
            }
            let token: &String = &self.children[j].0;
            let mut pair: Vec<String> = Vec::new();
            pair.push(key.clone());
            pair.push(token.clone());
            proof {
                assert(views_of(pair@) =~= seq![key@, csv[j as int].0]);
            }
            let new_key = tokenizer.detokenize(pair);
            let ghost mid = views_of(keys@);
            self.children[j].1.get_keys_recursive(tokenizer, &new_key, keys);
            proof {
                if tokens_known(tk) {
                    assert(new_key@ == spec_detok(tk, seq![key@, csv[j as int].0]));
                    assert(views_of(keys@) =~= mid + collected_keys(
                        tk,
                        csv[j as int].1,
                        new_key@,
                    ));
                    assert(mid + collected_keys(tk, csv[j as int].1, new_key@)
                        + collected_children(tk, csv.skip(j as int + 1), key@) =~= mid + (
                    collected_keys(tk, csv[j as int].1, new_key@) + collected_children(
                        tk,
                        csv.skip(j as int + 1),
                        key@,
                    )));
                }
            }
            j = j + 1;
        }
        proof {
            assert(csv.skip(j as int) =~= Seq::<(Seq<char>, TrieView<T>)>::empty());
            assert(collected_children(tk, csv.skip(j as int), key@) =~= Seq::<Seq<char>>::empty());
        }
    }

    /// Prefix enumeration: resolve the candidate keys of the partial-path
    /// query, then collect every key that ends at or under each resolved
    /// candidate, reconstructing full keys level by level.
    pub fn get_keys_under_prefix(&self, key: &str) -> (r: Vec<String>)
        requires
            self.wf(),
        ensures
            tokens_known(self.spec_tokenizer()) ==> views_of(r@) == prefix_results(
                self.spec_tokenizer(),
                self@,
                spec_partial(self.spec_tokenizer(), self@, key@),
            ),
    {
        let ghost tk = self.spec_tokenizer();
        let mut keys: Vec<String> = Vec::new();
        let search_keys = self.get_keys_by_partial_path(key);
        let ghost candv = views_of(search_keys@);
        let mut m: usize = 0;
        proof {
            assert(candv.skip(0) =~= candv);
            assert(views_of(keys@) =~= Seq::<Seq<char>>::empty());
        }
        while m < search_keys.len()
            invariant
                m <= search_keys@.len(),
                candv == views_of(search_keys@),
                tk == self.spec_tokenizer(),
                self.wf(),
                tokens_known(tk) ==> views_of(keys@) + prefix_results(
                    tk,
                    self@,
                    candv.skip(m as int),
                ) =~= prefix_results(tk, self@, candv),
            decreases search_keys@.len() - m,
        {
            proof {
                assert(candv[m as int] == search_keys@[m as int]@);
                assert(candv.skip(m as int).first() == candv[m as int]);
                assert(candv.skip(m as int).drop_first() =~= candv.skip(m as int + 1));
            }
            let k: &String = &search_keys[m];
            let ghost mid = views_of(keys@);
            match self.get(k.as_str()) {
                Some(t) => {
                    t.get_keys_recursive(&self.tokenizer, k, &mut keys);
                    proof {
                        if tokens_known(tk) {
                            assert(mid + collected_keys(tk, t@, k@) + prefix_results(
                                tk,
                                self@,
                                candv.skip(m as int + 1),
                            ) =~= mid + (collected_keys(tk, t@, k@) + prefix_results(
                                tk,
                                self@,
                                candv.skip(m as int + 1),
                            )));
                        }
                    }
                }
                None => {}
            }
            m = m + 1;
        }
        proof {
            assert(candv.skip(m as int) =~= Seq::<Seq<char>>::empty());
            assert(prefix_results(tk, self@, candv.skip(m as int)) =~= Seq::<Seq<char>>::empty());
        }
        keys
    }

    /// Walks the tokens from position `i`, returning a mutable handle on the
    /// reached node; when some step is missing the tree is left unchanged.
    fn get_mut_walk<'a>(&'a mut self, toks: &Vec<String>, i: usize) -> (r: Option<&'a mut Trie<T>>)
        requires
            inv(old(self)@),
            i <= toks@.len(),
        ensures
            (match r {
                Some(n) => spec_get(old(self)@, views_of(toks@).skip(i as int)) == Some((*n)@),
                None => {
                    &&& spec_get(old(self)@, views_of(toks@).skip(i as int)) is None
                    &&& final(self)@.count == old(self)@.count
                    &&& final(self)@.children =~~= old(self)@.children
                    &&& final(self)@.data == old(self)@.data
                    &&& final(self)@.is_key_end == old(self)@.is_key_end
                },
            }),
        decreases toks@.len() - i,
    {
        if i == toks.len() {
            proof {
                assert(views_of(toks@).skip(i as int) =~= Seq::<Seq<char>>::empty());
            }
            Some(self)
        } else {
            let ghost ov = old(self)@;
            let ghost toksv = views_of(toks@).skip(i as int);
            let ghost tokv = toks@[i as int]@;
            proof {
                assert(toksv.first() == tokv);
                assert(toksv.drop_first() =~= views_of(toks@).skip(i as int + 1));
            }
            match Self::find_child(&self.children, &toks[i]) {
                None => {
                    proof {
                        assert(!has_child(ov.children, tokv)) by {
                            if has_child(ov.children, tokv) {
                                let k = child_index(ov.children, tokv);
                                assert(ov.children[k] == (
                                    self.children@[k].0@,
                                    self.children@[k].1.tview(),
                                ));
                            }
                        }
                    }
                    None
                }
                Some(j) => {
                    proof {
                        assert(ov.children[j as int] == (
                            self.children@[j as int].0@,
                            self.children@[j as int].1.tview(),
                        ));
                        lemma_child_index_unique(ov.children, tokv, j as int);
                        assert(forall|x: TrieView<T>|
                            #[trigger] set_child(ov.children, tokv, x) == ov.children.update(
                                j as int,
                                (tokv, x),
                            ));
                    }
                    let ghost c0 = ov.children[j as int].1;
                    proof {
                        assert(inv(c0));
                    }
                    let c = nth_child_mut(&mut self.children, j);
                    c.get_mut_walk(toks, i + 1)
                }
            }
        }
    }

    /// Resolves `key` to a mutable handle on the node its tokens lead to;
    /// `None` on the first missing token, and then the tree is unchanged.
    /// Mutating anything but the payload through the handle may break the
    /// tree's well-formedness.
    pub fn get_mut<'a>(&'a mut self, key: &str) -> (r: Option<&'a mut Trie<T>>)
        requires
            old(self).wf(),
        ensures
            exists|toks: Seq<Seq<char>>|
                #[trigger] tokens_match(old(self).spec_tokenizer(), key@, toks) && (match r {
                    Some(n) => spec_get(old(self)@, toks) == Some((*n)@),
                    None => {
                        &&& spec_get(old(self)@, toks) is None
                        &&& final(self)@.count == old(self)@.count
                        &&& final(self)@.children =~~= old(self)@.children
                        &&& final(self)@.data == old(self)@.data
                        &&& final(self)@.is_key_end == old(self)@.is_key_end
                    },
                }),
    {
        let tokens = self.tokenizer.tokenize(key.to_owned());
        let ghost toksv = views_of(tokens@);
        proof {
            assert(views_of(tokens@).skip(0) =~= toksv);
        }
        self.get_mut_walk(&tokens, 0)
    }
}

} // verus!
