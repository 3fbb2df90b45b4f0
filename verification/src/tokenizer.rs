//! Tokenization strategies: converting a whole key to and from an ordered
//! sequence of tokens.

use vstd::prelude::*;
use std::sync::Arc;
use unicode_segmentation::UnicodeSegmentation;
use vstd::string::StrSliceExecFns;
use vstd::string::StringExecFns;

verus! {

/// A caller-supplied tokenization strategy: a pair of functions that break a
/// key into tokens and reassemble tokens into a key, behind shared handles so
/// that every node of one tree references the same pair without copying.
///
/// Callers are responsible for `detokenize(tokenize(s)) == s` on every key
/// that must round-trip through enumeration; nothing is promised about what
/// these functions return, and the trie's contracts say nothing exact about
/// operations performed under a custom strategy.
#[verifier::external_body]
pub struct KeyCodec {
    tokenize_fn: Arc<dyn Fn(String) -> Vec<String>>,
    detokenize_fn: Arc<dyn Fn(Vec<String>) -> String>,
}

impl KeyCodec {
    /// Wraps a caller's function pair in shared handles.
    #[verifier::external_body]
    pub fn new<F, G>(tokenize_fn: F, detokenize_fn: G) -> KeyCodec where
        F: Fn(String) -> Vec<String> + 'static,
        G: Fn(Vec<String>) -> String + 'static,
    {
        KeyCodec { tokenize_fn: Arc::new(tokenize_fn), detokenize_fn: Arc::new(detokenize_fn) }
    }

    /// Relies on `Arc::clone`: the clone shares the very same function pair,
    /// so it carries the same value.
    #[verifier::external_body]
    pub(crate) fn duplicate(&self) -> (r: KeyCodec)
        ensures
            r == *self,
    {
        KeyCodec {
            tokenize_fn: Arc::clone(&self.tokenize_fn),
            detokenize_fn: Arc::clone(&self.detokenize_fn),
        }
    }

    /// Invokes the caller's tokenize function; nothing is known of its result.
    #[verifier::external_body]
    pub(crate) fn call_tokenize(&self, key: String) -> Vec<String> {
        (self.tokenize_fn)(key)
    }

    /// Invokes the caller's detokenize function; nothing is known of its
    /// result.
    #[verifier::external_body]
    pub(crate) fn call_detokenize(&self, tokens: Vec<String>) -> String {
        (self.detokenize_fn)(tokens)
    }
}

/// How a key string is decomposed into the ordered tokens that label the
/// levels of a trie.
pub enum Tokenizer {
    /// Split on grapheme-cluster boundaries, greedily packing each output
    /// token with whole clusters up to the given number of bytes.
    Slice(usize),
    /// Split on a literal delimiter substring; join with that delimiter.
    Delimiter(String),
    /// Caller-supplied strategy, shared (not copied) by every node of a tree.
    Custom(KeyCodec),
}

/// The grapheme clusters of a string, in order.  What they are is defined by
/// Unicode's segmentation rules and is a function of the characters alone.
pub uninterp spec fn grapheme_clusters(s: Seq<char>) -> Seq<Seq<char>>;

/// Relies on `unicode_segmentation::UnicodeSegmentation::graphemes` (extended
/// clusters): the clusters are nonempty substrings whose concatenation is the
/// original string, determined by the characters alone.
#[verifier::external_body]
fn grapheme_split(s: &str) -> (r: Vec<String>)
    ensures
        r@.map_values(|g: String| g@) == grapheme_clusters(s@),
        r@.map_values(|g: String| g@).flatten() == s@,
        forall|i: int| 0 <= i < r@.len() ==> r@[i]@.len() > 0,
{
    s.graphemes(true).map(|g| g.to_string()).collect()
}

/// The number of bytes in the UTF-8 encoding of a character sequence, as
/// `str::len` reports it.
pub open spec fn byte_len(s: Seq<char>) -> nat {
    (vstd::utf8::encode_utf8(s).len() as usize) as nat
}

/// The views of a sequence of strings.
pub open spec fn views_of(ts: Seq<String>) -> Seq<Seq<char>> {
    ts.map_values(|t: String| t@)
}

/// Greedy packing of grapheme clusters into tokens of up to `n` bytes:
/// `cur` is the token being accumulated; a cluster that no longer fits
/// flushes `cur` (even when `cur` is empty) and starts the next token; a
/// nonempty trailing token is flushed at the end.
pub open spec fn pack_graphemes(n: nat, gs: Seq<Seq<char>>, cur: Seq<char>) -> Seq<Seq<char>>
    decreases gs.len(),
{
    if gs.len() == 0 {
        if cur.len() == 0 {
            Seq::empty()
        } else {
            seq![cur]
        }
    } else if byte_len(cur) + byte_len(gs.first()) <= n {
        pack_graphemes(n, gs.drop_first(), cur + gs.first())
    } else {
        seq![cur] + pack_graphemes(n, gs.drop_first(), gs.first())
    }
}

/// The tokens of `s` under a fixed-width strategy of `n` bytes.
pub open spec fn slice_tokens(n: nat, s: Seq<char>) -> Seq<Seq<char>> {
    pack_graphemes(n, grapheme_clusters(s), Seq::empty())
}

/// Literal split of `s[start..]` on a nonempty `sep`, scanning for the next
/// occurrence from position `i`; the token under construction began at
/// `start`.
pub open spec fn split_from(s: Seq<char>, sep: Seq<char>, start: int, i: int) -> Seq<Seq<char>>
    recommends
        sep.len() > 0,
        0 <= start <= i <= s.len(),
    decreases s.len() - i,
{
    if sep.len() <= 0 || i < 0 || i + sep.len() > s.len() {
        seq![s.subrange(start, s.len() as int)]
    } else if s.subrange(i, i + sep.len()) == sep {
        seq![s.subrange(start, i)] + split_from(s, sep, i + sep.len(), i + sep.len())
    } else {
        split_from(s, sep, start, i + 1)
    }
}

/// The tokens of `s` under a delimiter strategy: literal leftmost-first split
/// on `sep`, keeping empty tokens; an empty `sep` yields an empty token, each
/// character on its own, and an empty token again.
pub open spec fn split_seq(s: Seq<char>, sep: Seq<char>) -> Seq<Seq<char>> {
    if sep.len() == 0 {
        seq![Seq::<char>::empty()] + Seq::new(s.len(), |i: int| seq![s[i]]) + seq![
            Seq::<char>::empty(),
        ]
    } else {
        split_from(s, sep, 0, 0)
    }
}

/// The key reassembled from tokens, interposing `sep` between neighbours.
pub open spec fn join_seq(parts: Seq<Seq<char>>, sep: Seq<char>) -> Seq<char>
    decreases parts.len(),
{
    if parts.len() == 0 {
        Seq::empty()
    } else if parts.len() == 1 {
        parts.first()
    } else {
        parts.first() + sep + join_seq(parts.drop_first(), sep)
    }
}

/// Whether this strategy's tokenization is a known function of the key:
/// true for the fixed-width and delimiter strategies, false for a custom
/// function pair.
pub open spec fn tokens_known(tk: Tokenizer) -> bool {
    !(tk is Custom)
}

/// The tokens this strategy produces for `key`; meaningful only when
/// `tokens_known` holds.
pub open spec fn spec_tokens(tk: Tokenizer, key: Seq<char>) -> Seq<Seq<char>> {
    match tk {
        Tokenizer::Slice(n) => slice_tokens(n as nat, key),
        Tokenizer::Delimiter(d) => split_seq(key, d@),
        Tokenizer::Custom(_) => Seq::empty(),
    }
}

/// The key this strategy reassembles from `toks`; meaningful only when
/// `tokens_known` holds.
pub open spec fn spec_detok(tk: Tokenizer, toks: Seq<Seq<char>>) -> Seq<char> {
    match tk {
        Tokenizer::Slice(_) => join_seq(toks, Seq::<char>::empty()),
        Tokenizer::Delimiter(d) => join_seq(toks, d@),
        Tokenizer::Custom(_) => Seq::empty(),
    }
}

/// Whether `needle` occurs contiguously inside `hay`.
pub open spec fn contains_seq(hay: Seq<char>, needle: Seq<char>) -> bool {
    exists|i: int|
        0 <= i && i + needle.len() <= hay.len() && #[trigger] hay.subrange(i, i + needle.len())
            == needle
}

/// Whether `s` begins with `prefix`.
pub open spec fn starts_with_seq(s: Seq<char>, prefix: Seq<char>) -> bool {
    prefix.len() <= s.len() && s.subrange(0, prefix.len() as int) == prefix
}

/// The whitespace characters that trimming strips: Unicode's White_Space set.
pub open spec fn is_trim_ws(c: char) -> bool {
    c == ' ' || c == '\t' || c == '\n' || c == '\u{0B}' || c == '\u{0C}' || c == '\r'
        || c == '\u{85}' || c == '\u{A0}' || c == '\u{1680}' || c == '\u{2000}' || c == '\u{2001}'
        || c == '\u{2002}' || c == '\u{2003}' || c == '\u{2004}' || c == '\u{2005}'
        || c == '\u{2006}' || c == '\u{2007}' || c == '\u{2008}' || c == '\u{2009}'
        || c == '\u{200A}' || c == '\u{2028}' || c == '\u{2029}' || c == '\u{202F}'
        || c == '\u{205F}' || c == '\u{3000}'
}

/// `s` with leading whitespace stripped.
pub open spec fn trim_front(s: Seq<char>) -> Seq<char>
    decreases s.len(),
{
    if s.len() > 0 && is_trim_ws(s.first()) {
        trim_front(s.drop_first())
    } else {
        s
    }
}

/// `s` with trailing whitespace stripped.
pub open spec fn trim_back(s: Seq<char>) -> Seq<char>
    decreases s.len(),
{
    if s.len() > 0 && is_trim_ws(s.last()) {
        trim_back(s.drop_last())
    } else {
        s
    }
}

/// `s` with whitespace stripped from both ends.
pub open spec fn trim_spec(s: Seq<char>) -> Seq<char> {
    trim_back(trim_front(s))
}

/// Whether `toks` is a token sequence that this strategy can return for
/// `key`.  For the fixed-width and delimiter strategies this pins the tokens
/// exactly; nothing is known for a custom strategy.
pub open spec fn tokens_match(tk: Tokenizer, key: Seq<char>, toks: Seq<Seq<char>>) -> bool {
    match tk {
        Tokenizer::Slice(n) => toks == slice_tokens(n as nat, key),
        Tokenizer::Delimiter(d) => toks == split_seq(key, d@),
        Tokenizer::Custom(_) => true,
    }
}

/// Whether `out` is a key that this strategy can reassemble from `toks`.
pub open spec fn detok_matches(tk: Tokenizer, toks: Seq<Seq<char>>, out: Seq<char>) -> bool {
    match tk {
        Tokenizer::Slice(_) => out == join_seq(toks, Seq::<char>::empty()),
        Tokenizer::Delimiter(d) => out == join_seq(toks, d@),
        Tokenizer::Custom(_) => true,
    }
}

/// Whether the characters of `sep` occur in `s` at position `i`.
fn matches_at(s: &str, s_len: usize, sep: &str, sep_len: usize, i: usize) -> (r: bool)
    requires
        s_len == s@.len(),
        sep_len == sep@.len(),
        i + sep_len <= s_len,
    ensures
        r == (s@.subrange(i as int, i + sep@.len()) == sep@),
{
    let mut j: usize = 0;
    while j < sep_len
        invariant
            0 <= j <= sep_len,
            s_len == s@.len(),
            sep_len == sep@.len(),
            i + sep_len <= s_len,
            forall|k: int| 0 <= k < j ==> s@[i + k] == sep@[k],
        decreases sep_len - j,
    {
        if s.get_char(i + j) != sep.get_char(j) {
            proof {
                assert(s@.subrange(i as int, i + sep@.len())[j as int] != sep@[j as int]);
            }
            return false;
        }
        j = j + 1;
    }
    proof {
        assert(s@.subrange(i as int, i + sep@.len()) =~= sep@);
    }
    true
}

impl Tokenizer {
    /// A fresh strategy value equivalent to this one; the custom function
    /// pair is shared, not copied.
    pub fn duplicate(&self) -> (r: Tokenizer)
        ensures
            r == *self,
    {
        match self {
            Tokenizer::Slice(length) => Tokenizer::Slice(*length),
            Tokenizer::Delimiter(delimiter) => Tokenizer::Delimiter(delimiter.clone()),
            Tokenizer::Custom(codec) => Tokenizer::Custom(codec.duplicate()),
        }
    }

    /// Breaks a key into the ordered tokens that label trie levels.
    ///
    /// * `Slice(n)` packs whole grapheme clusters greedily into tokens of up
    ///   to `n` bytes; the tokens always concatenate back to the key.
    /// * `Delimiter(sep)` splits on the literal `sep`, keeping empty tokens.
    /// * `Custom` invokes the caller's function as-is.
    pub fn tokenize(&self, key: String) -> (r: Vec<String>)
        ensures
            tokens_match(*self, key@, views_of(r@)),
            self is Slice ==> views_of(r@).flatten() == key@,
    {
        match self {
            Tokenizer::Slice(length) => {
                let n: usize = *length;
                let gs = grapheme_split(key.as_str());
                let ghost gseq = grapheme_clusters(key@);
                let mut slices: Vec<String> = Vec::new();
                let mut current: String = String::new();
                let mut i: usize = 0;
                proof {
                    assert(gseq.skip(0) =~= gseq);
                    assert(current@ =~= Seq::<char>::empty());
                    assert(views_of(slices@) =~= Seq::<Seq<char>>::empty());
                }
                while i < gs.len()
                    invariant
                        views_of(gs@) == gseq,
                        i <= gs@.len(),
                        views_of(slices@) + pack_graphemes(
                            n as nat,
                            gseq.skip(i as int),
                            current@,
                        ) =~= pack_graphemes(n as nat, gseq, Seq::empty()),
                    decreases gs@.len() - i,
                {
                    let ghost old_views = views_of(slices@);
                    let ghost old_cur = current@;
                    let g: &String = &gs[i];
                    proof {
                        assert(g@ == gseq[i as int]);
                        assert(gseq.skip(i as int).first() == gseq[i as int]);
                        assert(gseq.skip(i as int).drop_first() =~= gseq.skip(i as int + 1));
                    }
                    let fits: bool = match current.as_str().len().checked_add(g.as_str().len()) {
                        Some(total) => total <= n,
                        None => false,
                    };
                    if fits {
                        current.append(g.as_str());
                        proof {
                            assert(current@ == old_cur + gseq.skip(i as int).first());
                            assert(pack_graphemes(n as nat, gseq.skip(i as int), old_cur)
                                == pack_graphemes(n as nat, gseq.skip(i as int + 1), current@));
                        }
                    } else {
                        slices.push(current);
                        current = String::new();
                        current.append(g.as_str());
                        proof {
                            assert(current@ =~= g@);
                            assert(views_of(slices@) =~= old_views.push(old_cur));
                            assert(old_views.push(old_cur) =~= old_views + seq![old_cur]);
                            assert(pack_graphemes(n as nat, gseq.skip(i as int), old_cur)
                                == seq![old_cur] + pack_graphemes(n as nat, gseq.skip(i as int + 1), current@));
                            assert(old_views + (seq![old_cur] + pack_graphemes(n as nat, gseq.skip(i as int + 1), current@))
                                =~= (old_views + seq![old_cur]) + pack_graphemes(n as nat, gseq.skip(i as int + 1), current@));
                        }
                    }
                    i = i + 1;
                }
                proof {
                    assert(gseq.skip(i as int) =~= Seq::<Seq<char>>::empty());
                }
                if !current.as_str().is_empty() {
                    let ghost old_views = views_of(slices@);
                    let ghost old_cur = current@;
                    slices.push(current);
                    proof {
                        assert(views_of(slices@) =~= old_views.push(old_cur));
                        assert(old_views.push(old_cur) =~= old_views + seq![old_cur]);
                    }
                }
                proof {
                    assert(views_of(slices@) =~= slice_tokens(n as nat, key@));
                    lemma_pack_flatten(n as nat, gseq, Seq::empty());
                    assert(Seq::<char>::empty() + gseq.flatten() =~= gseq.flatten());
                    assert(views_of(slices@).flatten() == key@);
                }
                slices
            }
            Tokenizer::Delimiter(delimiter) => split_on(key.as_str(), delimiter.as_str()),
            Tokenizer::Custom(codec) => codec.call_tokenize(key),
        }
    }

    /// Joins tokens back into a key: `Slice` concatenates, `Delimiter` joins
    /// with the delimiter, `Custom` invokes the caller's function as-is.
    pub fn detokenize(&self, tokens: Vec<String>) -> (r: String)
        ensures
            detok_matches(*self, views_of(tokens@), r@),
    {
        match self {
            Tokenizer::Slice(_) => {
                proof {
                    reveal_strlit("");
                    assert(""@ =~= Seq::<char>::empty());
                }
                join_with(&tokens, "")
            }
            Tokenizer::Delimiter(delimiter) => join_with(&tokens, delimiter.as_str()),
            Tokenizer::Custom(codec) => codec.call_detokenize(tokens),
        }
    }
}

/// Literal split of `key` on `sep`, keeping empty tokens.
fn split_on(key: &str, sep: &str) -> (r: Vec<String>)
    ensures
        views_of(r@) == split_seq(key@, sep@),
{
    let key_len: usize = key.unicode_len();
    let sep_len: usize = sep.unicode_len();
    let mut out: Vec<String> = Vec::new();
    if sep_len == 0 {
        out.push(String::new());
        let mut i: usize = 0;
        while i < key_len
            invariant
                key_len == key@.len(),
                0 <= i <= key_len,
                views_of(out@) =~= seq![Seq::<char>::empty()] + Seq::new(
                    i as nat,
                    |k: int| seq![key@[k]],
                ),
            decreases key_len - i,
        {
            let ghost old_views = views_of(out@);
            let piece = key.substring_char(i, i + 1);
            let owned = piece.to_owned();
            proof {
                assert(owned@ =~= seq![key@[i as int]]);
            }
            out.push(owned);
            proof {
                assert(views_of(out@) =~= old_views.push(seq![key@[i as int]]));
                assert(views_of(out@) =~~= seq![Seq::<char>::empty()] + Seq::new(
                    i as nat + 1,
                    |k: int| seq![key@[k]],
                ));
            }
            i = i + 1;
        }
        let ghost old_views = views_of(out@);
        let empty_tail = String::new();
        proof {
            assert(empty_tail@ =~= Seq::<char>::empty());
        }
        out.push(empty_tail);
        proof {
            assert(views_of(out@) =~= old_views.push(Seq::<char>::empty()));
            assert(views_of(out@) =~~= split_seq(key@, sep@));
        }
        return out;
    }
    let mut start: usize = 0;
    let mut i: usize = 0;
    if sep_len <= key_len {
        while i <= key_len - sep_len
            invariant
                key_len == key@.len(),
                sep_len == sep@.len(),
                0 < sep_len <= key_len,
                0 <= start <= i <= key_len,
                views_of(out@) + split_from(key@, sep@, start as int, i as int) =~= split_from(
                    key@,
                    sep@,
                    0,
                    0,
                ),
            decreases key_len - i,
        {
            if matches_at(key, key_len, sep, sep_len, i) {
                let ghost old_views = views_of(out@);
                let piece = key.substring_char(start, i);
                let owned = piece.to_owned();
                out.push(owned);
                proof {
                    assert(views_of(out@) =~= old_views.push(key@.subrange(start as int, i as int)));
                    assert(old_views.push(key@.subrange(start as int, i as int)) =~= old_views + seq![
                        key@.subrange(start as int, i as int),
                    ]);
                    assert(old_views + (seq![key@.subrange(start as int, i as int)] + split_from(
                        key@,
                        sep@,
                        i + sep@.len(),
                        i + sep@.len(),
                    )) =~= (old_views + seq![key@.subrange(start as int, i as int)]) + split_from(
                        key@,
                        sep@,
                        i + sep@.len(),
                        i + sep@.len(),
                    ));
                }
                start = i + sep_len;
                i = start;
            } else {
                i = i + 1;
            }
        }
    }
    let ghost old_views = views_of(out@);
    let last = key.substring_char(start, key_len);
    let owned = last.to_owned();
    out.push(owned);
    proof {
        assert(views_of(out@) =~= old_views.push(key@.subrange(start as int, key_len as int)));
        assert(split_from(key@, sep@, start as int, i as int) == seq![
            key@.subrange(start as int, key@.len() as int),
        ]);
        assert(old_views.push(key@.subrange(start as int, key_len as int)) =~= old_views + seq![
            key@.subrange(start as int, key@.len() as int),
        ]);
        assert(views_of(out@) =~= split_seq(key@, sep@));
    }
    out
}

/// Joins the tokens, interposing `sep` between neighbours.
fn join_with(tokens: &Vec<String>, sep: &str) -> (r: String)
    ensures
        r@ == join_seq(views_of(tokens@), sep@),
{
    let mut out = String::new();
    let mut i: usize = 0;
    while i < tokens.len()
        invariant
            0 <= i <= tokens@.len(),
            out@ == join_seq(views_of(tokens@).take(i as int), sep@),
        decreases tokens@.len() - i,
    {
        if i > 0 {
            out.append(sep);
        }
        out.append(tokens[i].as_str());
        proof {
            lemma_join_push(views_of(tokens@).take(i as int), sep@, tokens@[i as int]@);
            assert(views_of(tokens@).take(i as int).push(tokens@[i as int]@) =~= views_of(
                tokens@,
            ).take(i as int + 1));
        }
        i = i + 1;
    }
    proof {
        assert(views_of(tokens@).take(tokens@.len() as int) =~= views_of(tokens@));
    }
    out
}

/// Appending one more part to a join extends the joined key by the separator
/// (when anything came before) and that part.
proof fn lemma_join_push(parts: Seq<Seq<char>>, sep: Seq<char>, p: Seq<char>)
    ensures
        parts.len() == 0 ==> join_seq(parts.push(p), sep) == p,
        parts.len() > 0 ==> join_seq(parts.push(p), sep) == join_seq(parts, sep) + sep + p,
    decreases parts.len(),
{
    if parts.len() == 0 {
        assert(parts.push(p).len() == 1);
        assert(parts.push(p).first() == p);
    } else if parts.len() == 1 {
        assert(parts.push(p).drop_first() =~= seq![p]);
        assert(parts.push(p).first() == parts.first());
        assert(join_seq(seq![p], sep) == p);
        assert(join_seq(parts.push(p), sep) == parts.first() + sep + p);
        assert(join_seq(parts, sep) == parts.first());
    } else {
        lemma_join_push(parts.drop_first(), sep, p);
        assert(parts.push(p).drop_first() =~= parts.drop_first().push(p));
        assert(parts.push(p).first() == parts.first());
        assert(join_seq(parts, sep) + sep + p =~= parts.first() + sep + (join_seq(
            parts.drop_first(),
            sep,
        ) + sep + p));
    }
}

/// The packed tokens concatenate to the pending token followed by the
/// remaining clusters: fixed-width tokenization never loses or reorders text.
pub proof fn lemma_pack_flatten(n: nat, gs: Seq<Seq<char>>, cur: Seq<char>)
    ensures
        pack_graphemes(n, gs, cur).flatten() == cur + gs.flatten(),
    decreases gs.len(),
{
    if gs.len() == 0 {
        if cur.len() == 0 {
            assert(pack_graphemes(n, gs, cur).flatten() =~= cur + gs.flatten());
        } else {
            seq![cur].lemma_flatten_one_element();
            assert(seq![cur].flatten() =~= cur + gs.flatten());
        }
    } else if byte_len(cur) + byte_len(gs.first()) <= n {
        lemma_pack_flatten(n, gs.drop_first(), cur + gs.first());
        assert(cur + gs.first() + gs.drop_first().flatten() =~= cur + gs.flatten());
    } else {
        lemma_pack_flatten(n, gs.drop_first(), gs.first());
        let tail = pack_graphemes(n, gs.drop_first(), gs.first());
        assert((seq![cur] + tail).drop_first() =~= tail);
        assert((seq![cur] + tail).flatten() == cur + tail.flatten());
        assert(cur + (gs.first() + gs.drop_first().flatten()) =~= cur + gs.flatten());
    }
}

/// Joining with the empty separator is concatenation.
pub proof fn lemma_join_empty_sep(parts: Seq<Seq<char>>)
    ensures
        join_seq(parts, Seq::<char>::empty()) == parts.flatten(),
    decreases parts.len(),
{
    if parts.len() == 0 {
        assert(join_seq(parts, Seq::<char>::empty()) =~= parts.flatten());
    } else if parts.len() == 1 {
        assert(parts.drop_first().flatten() =~= Seq::<char>::empty());
        assert(parts.flatten() =~= parts.first());
    } else {
        lemma_join_empty_sep(parts.drop_first());
        assert(parts.first() + Seq::<char>::empty() + parts.drop_first().flatten() =~= parts.first()
            + parts.drop_first().flatten());
        assert(parts.flatten() == parts.first() + parts.drop_first().flatten());
    }
}

/// Round trip for the fixed-width strategy, at the token level: joining what
/// packing produced gives back exactly the text that went in.
pub proof fn lemma_slice_round_trip(n: nat, gs: Seq<Seq<char>>)
    ensures
        join_seq(pack_graphemes(n, gs, Seq::empty()), Seq::<char>::empty()) == gs.flatten(),
{
    lemma_pack_flatten(n, gs, Seq::empty());
    lemma_join_empty_sep(pack_graphemes(n, gs, Seq::empty()));
    assert(Seq::<char>::empty() + gs.flatten() =~= gs.flatten());
}

/// Splitting from position `i` keeps exactly the text from `start` on:
/// joining the pieces with the separator restores it.
proof fn lemma_join_split_from(s: Seq<char>, sep: Seq<char>, start: int, i: int)
    requires
        sep.len() > 0,
        0 <= start <= i <= s.len(),
    ensures
        join_seq(split_from(s, sep, start, i), sep) == s.subrange(start, s.len() as int),
    decreases s.len() - i,
{
    if i + sep.len() > s.len() {
    } else if s.subrange(i, i + sep.len()) == sep {
        lemma_join_split_from(s, sep, i + sep.len(), i + sep.len());
        let rest = split_from(s, sep, i + sep.len(), i + sep.len());
        lemma_split_from_nonempty(s, sep, i + sep.len(), i + sep.len());
        assert((seq![s.subrange(start, i)] + rest).drop_first() =~= rest);
        assert((seq![s.subrange(start, i)] + rest).first() == s.subrange(start, i));
        assert(rest.len() > 0);
        assert(join_seq(seq![s.subrange(start, i)] + rest, sep) == s.subrange(start, i) + sep
            + s.subrange(i + sep.len(), s.len() as int));
        assert(s.subrange(start, i) + s.subrange(i, i + sep.len()) + s.subrange(
            i + sep.len(),
            s.len() as int,
        ) =~= s.subrange(start, s.len() as int));
    } else {
        lemma_join_split_from(s, sep, start, i + 1);
    }
}

/// A split always yields at least one piece.
proof fn lemma_split_from_nonempty(s: Seq<char>, sep: Seq<char>, start: int, i: int)
    ensures
        split_from(s, sep, start, i).len() >= 1,
    decreases s.len() - i,
{
    if sep.len() <= 0 || i < 0 || i + sep.len() > s.len() {
    } else if s.subrange(i, i + sep.len()) == sep {
    } else {
        lemma_split_from_nonempty(s, sep, start, i + 1);
    }
}

/// Round trip for the delimiter strategy: joining the split of any string
/// with the same separator restores the string, for every separator.
pub proof fn lemma_delimiter_round_trip(s: Seq<char>, sep: Seq<char>)
    ensures
        join_seq(split_seq(s, sep), sep) == s,
{
    if sep.len() == 0 {
        lemma_join_empty_sep(split_seq(s, sep));
        lemma_split_empty_sep_flatten(s);
    } else {
        lemma_join_split_from(s, sep, 0, 0);
        assert(s.subrange(0, s.len() as int) =~= s);
    }
}

/// The pieces of an empty-separator split concatenate back to the string.
proof fn lemma_split_empty_sep_flatten(s: Seq<char>)
    ensures
        split_seq(s, Seq::<char>::empty()).flatten() == s,
{
    let singles = Seq::new(s.len(), |i: int| seq![s[i]]);
    lemma_singles_flatten(s);
    let parts = seq![Seq::<char>::empty()] + singles + seq![Seq::<char>::empty()];
    lemma_flatten_concat(seq![Seq::<char>::empty()] + singles, seq![Seq::<char>::empty()]);
    lemma_flatten_concat(seq![Seq::<char>::empty()], singles);
    seq![Seq::<char>::empty()].lemma_flatten_one_element();
    assert(seq![Seq::<char>::empty()].flatten() =~= Seq::<char>::empty());
    assert(parts.flatten() =~= s);
}

/// Flattening distributes over concatenation.
proof fn lemma_flatten_concat(a: Seq<Seq<char>>, b: Seq<Seq<char>>)
    ensures
        (a + b).flatten() == a.flatten() + b.flatten(),
    decreases a.len(),
{
    if a.len() == 0 {
        assert(a + b =~= b);
        assert(a.flatten() + b.flatten() =~= b.flatten());
    } else {
        lemma_flatten_concat(a.drop_first(), b);
        assert((a + b).drop_first() =~= a.drop_first() + b);
        assert((a + b).first() == a.first());
        assert(a.first() + (a.drop_first().flatten() + b.flatten()) =~= a.flatten() + b.flatten());
    }
}

/// One single-character piece per character flattens back to the string.
proof fn lemma_singles_flatten(s: Seq<char>)
    ensures
        Seq::new(s.len(), |i: int| seq![s[i]]).flatten() == s,
    decreases s.len(),
{
    let singles = Seq::new(s.len(), |i: int| seq![s[i]]);
    if s.len() == 0 {
        assert(singles.flatten() =~= s);
    } else {
        lemma_singles_flatten(s.drop_first());
        assert(singles.drop_first() =~= Seq::new(s.drop_first().len(), |i: int| seq![s.drop_first()[i]]));
        assert(singles.first() == seq![s[0]]);
        assert(seq![s[0]] + s.drop_first() =~= s);
    }
}

/// Whether `needle` occurs contiguously inside `hay`.
pub fn contains_str(hay: &str, needle: &str) -> (r: bool)
    ensures
        r == contains_seq(hay@, needle@),
{
    let hay_len: usize = hay.unicode_len();
    let needle_len: usize = needle.unicode_len();
    if needle_len > hay_len {
        proof {
            assert(!contains_seq(hay@, needle@));
        }
        return false;
    }
    if needle_len == 0 {
        proof {
            assert(contains_seq(hay@, needle@)) by {
                assert(hay@.subrange(0, 0 + needle@.len() as int) =~= needle@);
            }
        }
        return true;
    }
    let mut i: usize = 0;
    while i <= hay_len - needle_len
        invariant
            hay_len == hay@.len(),
            needle_len == needle@.len(),
            needle_len <= hay_len,
            0 <= i <= hay_len - needle_len + 1,
            0 < needle_len,
            forall|k: int|
                0 <= k < i ==> #[trigger] hay@.subrange(k, k + needle@.len()) != needle@,
        decreases hay_len - i,
    {
        if matches_at(hay, hay_len, needle, needle_len, i) {
            return true;
        }
        i = i + 1;
    }
    false
}

/// Whether `s` begins with `prefix`.
pub fn starts_with_str(s: &str, prefix: &str) -> (r: bool)
    ensures
        r == starts_with_seq(s@, prefix@),
{
    let s_len: usize = s.unicode_len();
    let prefix_len: usize = prefix.unicode_len();
    if prefix_len > s_len {
        return false;
    }
    matches_at(s, s_len, prefix, prefix_len, 0)
}

/// Whether trimming strips this character.
fn is_ws_char(c: char) -> (r: bool)
    ensures
        r == is_trim_ws(c),
{
    c == ' ' || c == '\t' || c == '\n' || c == '\u{0B}' || c == '\u{0C}' || c == '\r'
        || c == '\u{85}' || c == '\u{A0}' || c == '\u{1680}' || c == '\u{2000}' || c == '\u{2001}'
        || c == '\u{2002}' || c == '\u{2003}' || c == '\u{2004}' || c == '\u{2005}'
        || c == '\u{2006}' || c == '\u{2007}' || c == '\u{2008}' || c == '\u{2009}'
        || c == '\u{200A}' || c == '\u{2028}' || c == '\u{2029}' || c == '\u{202F}'
        || c == '\u{205F}' || c == '\u{3000}'
}

/// Stripping one leading whitespace character at a time reaches `s.skip(a)`.
proof fn lemma_trim_front_skip(s: Seq<char>, a: int)
    requires
        0 <= a <= s.len(),
        forall|k: int| 0 <= k < a ==> is_trim_ws(s[k]),
        a < s.len() ==> !is_trim_ws(s[a]),
    ensures
        trim_front(s) == s.skip(a),
    decreases a,
{
    if a == 0 {
        if s.len() > 0 && is_trim_ws(s.first()) {
            assert(false);
        }
        assert(s.skip(0) =~= s);
    } else {
        assert(is_trim_ws(s.first()));
        lemma_trim_front_skip(s.drop_first(), a - 1);
        assert(s.drop_first().skip(a - 1) =~= s.skip(a));
    }
}

/// Stripping one trailing whitespace character at a time reaches `s.take(b)`.
proof fn lemma_trim_back_take(s: Seq<char>, b: int)
    requires
        0 <= b <= s.len(),
        forall|k: int| b <= k < s.len() ==> is_trim_ws(s[k]),
        b > 0 ==> !is_trim_ws(s[b - 1]),
    ensures
        trim_back(s) == s.take(b),
    decreases s.len(),
{
    if b == s.len() {
        if s.len() > 0 && is_trim_ws(s.last()) {
            assert(false);
        }
        assert(s.take(b) =~= s);
    } else {
        assert(is_trim_ws(s.last()));
        lemma_trim_back_take(s.drop_last(), b);
        assert(s.drop_last().take(b) =~= s.take(b));
    }
}

/// `s` with whitespace stripped from both ends.
pub fn trim_str<'a>(s: &'a str) -> (r: &'a str)
    ensures
        r@ == trim_spec(s@),
{
    let s_len: usize = s.unicode_len();
    let mut a: usize = 0;
    while a < s_len && is_ws_char(s.get_char(a))
        invariant
            s_len == s@.len(),
            0 <= a <= s_len,
            forall|k: int| 0 <= k < a ==> is_trim_ws(s@[k]),
        decreases s_len - a,
    {
        a = a + 1;
    }
    let mut b: usize = s_len;
    while b > a && is_ws_char(s.get_char(b - 1))
        invariant
            s_len == s@.len(),
            a <= b <= s_len,
            forall|k: int| 0 <= k < a ==> is_trim_ws(s@[k]),
            a < s_len ==> !is_trim_ws(s@[a as int]),
            forall|k: int| b <= k < s_len ==> is_trim_ws(s@[k]),
        decreases b,
    {
        b = b - 1;
    }
    let r = s.substring_char(a, b);
    proof {
        lemma_trim_front_skip(s@, a as int);
        if b == a {
            assert(trim_back(s@.skip(a as int)) =~= s@.subrange(a as int, b as int)) by {
                lemma_trim_back_take(s@.skip(a as int), 0);
            }
        } else {
            assert(!is_trim_ws(s@[b - 1]));
            lemma_trim_back_take(s@.skip(a as int), b - a);
            assert(s@.skip(a as int).take(b - a) =~= s@.subrange(a as int, b as int));
        }
    }
    r
}

} // verus!
