//! The Markov model: training a chain of contexts and generating sentences.

use vstd::prelude::*;
use crate::link::{Link, LinkModel, LinkSet, Token, TokenModel, links_wf, token_count, total_of,
    lemma_counts_le_total, lemma_distinct_tokens_tally};
use crate::text::{spec_words, spec_sentences, split_words, split_sentences, word_shaped,
    spec_render, render_sentence, lemma_split_runs_shape, sum_lens};
use crate::rng::random_below;

verus! {

/// Whether a token's word, if it is a word, is non-empty and space-free.
pub open spec fn token_shaped(t: TokenModel) -> bool {
    match t {
        TokenModel::Word(w) => word_shaped(w),
        TokenModel::End => true,
    }
}

/// One trained context with its links.
type ChainEntry = (Vec<String>, LinkSet);

/// The links stored for the first entry whose key is `ctx`, if any.
pub open spec fn lookup_links(entries: Seq<ChainEntry>, ctx: Seq<Seq<char>>) -> Option<
    Seq<LinkModel>,
>
    decreases entries.len(),
{
    if entries.len() == 0 {
        None
    } else if entries[0].0.deep_view() == ctx {
        Some(entries[0].1@)
    } else {
        lookup_links(entries.drop_first(), ctx)
    }
}

/// The sum of all link counts over all entries.
pub open spec fn grand_total(entries: Seq<ChainEntry>) -> nat
    decreases entries.len(),
{
    if entries.len() == 0 {
        0
    } else {
        total_of(entries[0].1@) + grand_total(entries.drop_first())
    }
}

/// The number of links over all entries.
pub open spec fn links_count(entries: Seq<ChainEntry>) -> nat
    decreases entries.len(),
{
    if entries.len() == 0 {
        0
    } else {
        entries[0].1@.len() + links_count(entries.drop_first())
    }
}

/// A variable-order Markov chain: every context of 1 up to `depth`
/// consecutive words maps to the weighted successor tokens seen in
/// training, and `entry_points` lists the distinct first words of the
/// trained sentences in order of first appearance.
pub struct Markov {
    chain: Vec<ChainEntry>,
    entry_points: Vec<String>,
    depth: usize,
}

impl Markov {
    /// The configured maximum context width.
    pub closed spec fn spec_depth(self) -> int {
        self.depth as int
    }

    /// The distinct first words of the trained sentences, in order of
    /// first appearance.
    pub closed spec fn entry_points_view(self) -> Seq<Seq<char>> {
        self.entry_points.deep_view()
    }

    /// The links trained for `ctx`, if that context was ever seen.
    pub closed spec fn links_of(self, ctx: Seq<Seq<char>>) -> Option<Seq<LinkModel>> {
        lookup_links(self.chain@, ctx)
    }

    /// Whether the chain stores the context `ctx`.
    pub open spec fn has_context(self, ctx: Seq<Seq<char>>) -> bool {
        self.links_of(ctx) is Some
    }

    /// How often training saw token `t` follow the context `ctx`.
    pub open spec fn spec_count(self, ctx: Seq<Seq<char>>, t: TokenModel) -> nat {
        match self.links_of(ctx) {
            Option::None => 0,
            Option::Some(ls) => token_count(ls, t),
        }
    }

    /// The sum of all counts stored anywhere in the chain.
    pub closed spec fn total(self) -> nat {
        grand_total(self.chain@)
    }

    /// How many distinct contexts the chain stores.
    pub closed spec fn num_contexts(self) -> int {
        self.chain@.len() as int
    }

    /// How many links the chain stores over all contexts.
    pub closed spec fn num_links(self) -> nat {
        links_count(self.chain@)
    }

    /// Whether the word `w` stands as a successor token somewhere in the
    /// chain.
    pub closed spec fn word_in_chain(self, w: Seq<char>) -> bool {
        exists|a: int, k: int|
            0 <= a < self.chain@.len() && 0 <= k < self.chain@[a].1@.len()
                && (#[trigger] self.chain@[a].1@[k]).token == TokenModel::Word(w)
    }

    /// Structural soundness of the model.
    pub closed spec fn wf(self) -> bool {
        &&& self.depth >= 1
        &&& forall|a: int, b: int|
            0 <= a < b < self.chain@.len() ==> (#[trigger] self.chain@[a]).0.deep_view() != (
            #[trigger] self.chain@[b]).0.deep_view()
        &&& forall|a: int|
            0 <= a < self.chain@.len() ==> 1 <= (#[trigger] self.chain@[a]).0.deep_view().len()
                <= self.depth
        &&& forall|a: int, k: int|
            0 <= a < self.chain@.len() && 0 <= k < self.chain@[a].0.deep_view().len()
                ==> word_shaped(#[trigger] self.chain@[a].0.deep_view()[k])
        &&& forall|a: int|
            0 <= a < self.chain@.len() ==> links_wf((#[trigger] self.chain@[a]).1@)
        &&& forall|a: int| 0 <= a < self.chain@.len() ==> (#[trigger] self.chain@[a]).1@.len() >= 1
        &&& forall|a: int, k: int|
            0 <= a < self.chain@.len() && 0 <= k < self.chain@[a].1@.len() ==> token_shaped(
                (#[trigger] self.chain@[a].1@[k]).token,
            )
        &&& forall|e: int, f: int|
            0 <= e < f < self.entry_points.deep_view().len()
                ==> self.entry_points.deep_view()[e] != self.entry_points.deep_view()[f]
        &&& forall|e: int|
            0 <= e < self.entry_points.deep_view().len() ==> word_shaped(
                #[trigger] self.entry_points.deep_view()[e],
            )
        &&& grand_total(self.chain@) <= usize::MAX
    }

    /// Every entry point, and every word stored as a successor anywhere,
    /// has its own one-word context in the chain, so generation can always
    /// look up at least the width-one context of its trailing word.
    pub closed spec fn supported(self) -> bool {
        &&& forall|e: int|
            0 <= e < self.entry_points_view().len() ==> self.has_context(
                seq![#[trigger] self.entry_points_view()[e]],
            )
        &&& forall|w: Seq<char>| self.word_in_chain(w) ==> self.has_context(seq![w])
    }

    /// An empty model for contexts of 1 up to `depth` words.
    pub fn with_depth(depth: usize) -> (r: Markov)
        requires
            depth >= 1,
        ensures
            r.wf(),
            r.supported(),
            r.spec_depth() == depth,
            r.entry_points_view() == Seq::<Seq<char>>::empty(),
            r.total() == 0,
            r.num_contexts() == 0,
            r.num_links() == 0,
            forall|c: Seq<Seq<char>>, t: TokenModel| r.spec_count(c, t) == 0,
            forall|c: Seq<Seq<char>>| !r.has_context(c),
    {
        let r = Markov { chain: Vec::new(), entry_points: Vec::new(), depth };
        proof {
            assert(r.entry_points.deep_view() =~= Seq::<Seq<char>>::empty());
        }
        r
    }

    /// The configured depth.
    pub fn depth(&self) -> (d: usize)
        ensures
            d == self.spec_depth(),
    {
        self.depth
    }

    /// The trained entry points.
    pub fn entry_points(&self) -> (r: &Vec<String>)
        ensures
            r.deep_view() == self.entry_points_view(),
    {
        &self.entry_points
    }
}

/// Word-sequence equality, decided elementwise.
fn ctx_eq(a: &Vec<String>, b: &Vec<String>) -> (r: bool)
    ensures
        r == (a.deep_view() == b.deep_view()),
{
    let n = a.len();
    if n != b.len() {
        proof {
            assert(a.deep_view().len() == a@.len());
            assert(b.deep_view().len() == b@.len());
        }
        return false;
    }
    let mut i: usize = 0;
    while i < n
        invariant
            i <= n,
            n == a@.len(),
            n == b@.len(),
            forall|k: int| 0 <= k < i ==> a.deep_view()[k] == b.deep_view()[k],
        decreases n - i,
    {
        if !(a[i] == b[i]) {
            proof {
                assert(a.deep_view()[i as int] == a@[i as int]@);
                assert(b.deep_view()[i as int] == b@[i as int]@);
            }
            return false;
        }
        i = i + 1;
    }
    proof {
        assert(a.deep_view() =~= b.deep_view());
    }
    true
}

/// With distinct keys, looking up a context is finding the index of its
/// entry.
#[verifier::rlimit(50)]
proof fn lemma_lookup_index(entries: Seq<ChainEntry>, ctx: Seq<Seq<char>>)
    requires
        forall|a: int, b: int|
            0 <= a < b < entries.len() ==> (#[trigger] entries[a]).0.deep_view() != (
            #[trigger] entries[b]).0.deep_view(),
    ensures
        lookup_links(entries, ctx) is None <==> (forall|i: int|
            0 <= i < entries.len() ==> (#[trigger] entries[i]).0.deep_view() != ctx),
        forall|i: int|
            0 <= i < entries.len() && (#[trigger] entries[i]).0.deep_view() == ctx ==> lookup_links(
                entries,
                ctx,
            ) == Some(entries[i].1@),
    decreases entries.len(),
{
    if entries.len() > 0 {
        let d = entries.drop_first();
        assert(forall|i: int| 0 <= i < d.len() ==> #[trigger] d[i] == entries[i + 1]);
        lemma_lookup_index(d, ctx);
        if entries[0].0.deep_view() == ctx {
            assert(lookup_links(entries, ctx) == Some(entries[0].1@));
            assert forall|i: int|
                0 <= i < entries.len() && (#[trigger] entries[i]).0.deep_view()
                    == ctx implies lookup_links(entries, ctx) == Some(entries[i].1@) by {
                if i > 0 {
                    assert(entries[0].0.deep_view() != entries[i].0.deep_view());
                }
            }
        } else {
            assert(lookup_links(entries, ctx) == lookup_links(d, ctx));
            assert forall|i: int|
                0 <= i < entries.len() && (#[trigger] entries[i]).0.deep_view()
                    == ctx implies lookup_links(entries, ctx) == Some(entries[i].1@) by {
                assert(i > 0);
                assert(d[i - 1].0.deep_view() == ctx);
            }
            if !(lookup_links(entries, ctx) is None) {
                let i = choose|i: int| 0 <= i < d.len() && (#[trigger] d[i]).0.deep_view() == ctx;
                assert(entries[i + 1].0.deep_view() == ctx);
            }
        }
    }
}

/// Replacing the links of one entry, keeping its key, rewrites exactly
/// that context's lookup and shifts the sums by the difference.
#[verifier::rlimit(50)]
proof fn lemma_lookup_update(entries: Seq<ChainEntry>, i: int, pair: ChainEntry)
    requires
        0 <= i < entries.len(),
        pair.0.deep_view() == entries[i].0.deep_view(),
        forall|a: int, b: int|
            0 <= a < b < entries.len() ==> (#[trigger] entries[a]).0.deep_view() != (
            #[trigger] entries[b]).0.deep_view(),
    ensures
        forall|c: Seq<Seq<char>>|
            #[trigger] lookup_links(entries.update(i, pair), c) == (if c == entries[i].0.deep_view() {
                Some(pair.1@)
            } else {
                lookup_links(entries, c)
            }),
        grand_total(entries.update(i, pair)) + total_of(entries[i].1@) == grand_total(entries)
            + total_of(pair.1@),
        links_count(entries.update(i, pair)) + entries[i].1@.len() == links_count(entries)
            + pair.1@.len(),
    decreases entries.len(),
{
    let u = entries.update(i, pair);
    assert(u.len() == entries.len());
    if i == 0 {
        assert(u[0] == pair);
        assert(u.drop_first() =~= entries.drop_first());
        assert forall|c: Seq<Seq<char>>|
            #[trigger] lookup_links(u, c) == (if c == entries[0].0.deep_view() {
                Some(pair.1@)
            } else {
                lookup_links(entries, c)
            }) by {
            if c != entries[0].0.deep_view() {
                assert(lookup_links(u, c) == lookup_links(u.drop_first(), c));
                assert(lookup_links(entries, c) == lookup_links(entries.drop_first(), c));
            }
        }
    } else {
        assert(u[0] == entries[0]);
        let d = entries.drop_first();
        assert(u.drop_first() =~= d.update(i - 1, pair));
        assert(forall|k: int| 0 <= k < d.len() ==> #[trigger] d[k] == entries[k + 1]);
        lemma_lookup_update(d, i - 1, pair);
        assert forall|c: Seq<Seq<char>>|
            #[trigger] lookup_links(u, c) == (if c == entries[i].0.deep_view() {
                Some(pair.1@)
            } else {
                lookup_links(entries, c)
            }) by {
            assert(lookup_links(u.drop_first(), c) == lookup_links(d.update(i - 1, pair), c));
            assert(lookup_links(d.update(i - 1, pair), c) == (if c == d[i - 1].0.deep_view() {
                Some(pair.1@)
            } else {
                lookup_links(d, c)
            }));
            assert(d[i - 1] == entries[i]);
            if c == entries[i].0.deep_view() {
                assert(entries[0].0.deep_view() != entries[i].0.deep_view());
                assert(lookup_links(u, c) == lookup_links(u.drop_first(), c));
            } else if c == entries[0].0.deep_view() {
                assert(lookup_links(u, c) == Some(entries[0].1@));
                assert(lookup_links(entries, c) == Some(entries[0].1@));
            } else {
                assert(lookup_links(u, c) == lookup_links(u.drop_first(), c));
                assert(lookup_links(entries, c) == lookup_links(d, c));
            }
        }
    }
}

/// Appending an entry with a fresh key adds exactly that context.
#[verifier::rlimit(50)]
proof fn lemma_lookup_push(entries: Seq<ChainEntry>, pair: ChainEntry)
    requires
        forall|i: int|
            0 <= i < entries.len() ==> (#[trigger] entries[i]).0.deep_view() != pair.0.deep_view(),
    ensures
        forall|c: Seq<Seq<char>>|
            #[trigger] lookup_links(entries.push(pair), c) == (if c == pair.0.deep_view() {
                Some(pair.1@)
            } else {
                lookup_links(entries, c)
            }),
        grand_total(entries.push(pair)) == grand_total(entries) + total_of(pair.1@),
        links_count(entries.push(pair)) == links_count(entries) + pair.1@.len(),
    decreases entries.len(),
{
    let u = entries.push(pair);
    if entries.len() == 0 {
        assert(u[0] == pair);
        assert(u.drop_first() =~= Seq::<ChainEntry>::empty());
        assert(grand_total(u.drop_first()) == 0);
        assert(grand_total(u) == total_of(u[0].1@) + grand_total(u.drop_first()));
        assert(total_of(u[0].1@) == total_of(pair.1@));
        assert(grand_total(entries) == 0);
        assert(links_count(u.drop_first()) == 0);
        assert(links_count(u) == u[0].1@.len() + links_count(u.drop_first()));
        assert(links_count(entries) == 0);
        assert forall|c: Seq<Seq<char>>|
            #[trigger] lookup_links(u, c) == (if c == pair.0.deep_view() {
                Some(pair.1@)
            } else {
                lookup_links(entries, c)
            }) by {
            if c != pair.0.deep_view() {
                assert(lookup_links(u, c) == lookup_links(u.drop_first(), c));
            }
        }
    } else {
        assert(u[0] == entries[0]);
        let d = entries.drop_first();
        assert(u.drop_first() =~= d.push(pair));
        assert(forall|k: int| 0 <= k < d.len() ==> #[trigger] d[k] == entries[k + 1]);
        lemma_lookup_push(d, pair);
        assert(grand_total(u) == total_of(u[0].1@) + grand_total(u.drop_first()));
        assert(grand_total(u.drop_first()) == grand_total(d.push(pair)));
        assert(grand_total(d.push(pair)) == grand_total(d) + total_of(pair.1@));
        assert(grand_total(entries) == total_of(entries[0].1@) + grand_total(d));
        assert(links_count(u) == u[0].1@.len() + links_count(u.drop_first()));
        assert(links_count(u.drop_first()) == links_count(d.push(pair)));
        assert(links_count(d.push(pair)) == links_count(d) + pair.1@.len());
        assert(links_count(entries) == entries[0].1@.len() + links_count(d));
        assert forall|c: Seq<Seq<char>>|
            #[trigger] lookup_links(u, c) == (if c == pair.0.deep_view() {
                Some(pair.1@)
            } else {
                lookup_links(entries, c)
            }) by {
            assert(lookup_links(u.drop_first(), c) == lookup_links(d.push(pair), c));
            assert(lookup_links(d.push(pair), c) == (if c == pair.0.deep_view() {
                Some(pair.1@)
            } else {
                lookup_links(d, c)
            }));
            if c == pair.0.deep_view() {
                assert(entries[0].0.deep_view() != c);
                assert(lookup_links(u, c) == lookup_links(u.drop_first(), c));
            } else if c == entries[0].0.deep_view() {
                assert(lookup_links(u, c) == Some(entries[0].1@));
                assert(lookup_links(entries, c) == Some(entries[0].1@));
            } else {
                assert(lookup_links(u, c) == lookup_links(u.drop_first(), c));
                assert(lookup_links(entries, c) == lookup_links(d, c));
            }
        }
    }
}

/// Any stored link set weighs at most the grand total.
proof fn lemma_lookup_le_total(entries: Seq<ChainEntry>, ctx: Seq<Seq<char>>)
    ensures
        lookup_links(entries, ctx) matches Some(ls) ==> total_of(ls) <= grand_total(entries),
    decreases entries.len(),
{
    if entries.len() > 0 {
        lemma_lookup_le_total(entries.drop_first(), ctx);
    }
}

impl Markov {
    /// The index of the entry holding `context`, if trained.
    fn find_entry(&self, context: &Vec<String>) -> (r: Option<usize>)
        requires
            self.wf(),
        ensures
            match r {
                Some(i) => i < self.chain@.len() && self.chain@[i as int].0.deep_view()
                    == context.deep_view() && self.links_of(context.deep_view()) == Some(
                    self.chain@[i as int].1@,
                ),
                None => !self.has_context(context.deep_view()),
            },
    {
        let n = self.chain.len();
        let mut i: usize = 0;
        while i < n
            invariant
                i <= n,
                n == self.chain@.len(),
                self.wf(),
                forall|k: int| 0 <= k < i ==> (#[trigger] self.chain@[k]).0.deep_view()
                    != context.deep_view(),
            decreases n - i,
        {
            if ctx_eq(&self.chain[i].0, context) {
                proof {
                    lemma_lookup_index(self.chain@, context.deep_view());
                }
                return Some(i);
            }
            i = i + 1;
        }
        proof {
            lemma_lookup_index(self.chain@, context.deep_view());
        }
        None
    }

    /// Records one occurrence of `token` after `context`: the stored count
    /// of that pair rises by one and nothing else changes.
    fn train_link(&mut self, context: Vec<String>, token: Token)
        requires
            old(self).wf(),
            1 <= context.deep_view().len() <= old(self).spec_depth(),
            forall|k: int| 0 <= k < context.deep_view().len() ==> word_shaped(
                #[trigger] context.deep_view()[k],
            ),
            token_shaped(token@),
            old(self).total() < usize::MAX,
        ensures
            final(self).wf(),
            final(self).spec_depth() == old(self).spec_depth(),
            final(self).entry_points_view() == old(self).entry_points_view(),
            final(self).total() == old(self).total() + 1,
            forall|c: Seq<Seq<char>>, t: TokenModel|
                #[trigger] final(self).spec_count(c, t) == old(self).spec_count(c, t) + (if c
                    == context.deep_view() && t == token@ {
                    1nat
                } else {
                    0nat
                }),
            forall|c: Seq<Seq<char>>|
                #[trigger] final(self).has_context(c) == (old(self).has_context(c) || c
                    == context.deep_view()),
            final(self).num_contexts() == old(self).num_contexts() + (if old(self).has_context(
                context.deep_view(),
            ) {
                0int
            } else {
                1int
            }),
            final(self).num_links() == old(self).num_links() + (if old(self).spec_count(
                context.deep_view(),
                token@,
            ) == 0 {
                1nat
            } else {
                0nat
            }),
            forall|w: Seq<char>|
                #[trigger] final(self).word_in_chain(w) == (old(self).word_in_chain(w) || token@
                    == TokenModel::Word(w)),
    {
        let ghost ctxv = context.deep_view();
        let ghost entries0 = self.chain@;
        match self.find_entry(&context) {
            Some(i) => {
                proof {
                    lemma_lookup_le_total(entries0, ctxv);
                    lemma_counts_le_total(entries0[i as int].1@);
                }
                let entry = &mut self.chain[i];
                let ghost key = entry.0;
                entry.1.insert(token);
                proof {
                    assert(self.chain@ == entries0.update(i as int, self.chain@[i as int]));
                    assert(self.chain@[i as int].0 == key);
                    lemma_lookup_update(entries0, i as int, self.chain@[i as int]);
                    assert forall|a: int, k: int|
                        0 <= a < self.chain@.len() && 0 <= k
                            < self.chain@[a].1@.len() implies token_shaped(
                        (#[trigger] self.chain@[a].1@[k]).token,
                    ) by {
                        if a == i {
                            let s0 = entries0[i as int].1@;
                            let s1 = self.chain@[i as int].1@;
                            let t = s1[k].token;
                            crate::link::lemma_token_count_exists(s1, t);
                            assert(token_count(s1, t) > 0);
                            if t != token@ {
                                assert(token_count(s0, t) > 0);
                                crate::link::lemma_token_count_exists(s0, t);
                                let k0 = choose|k0: int|
                                    0 <= k0 < s0.len() && (#[trigger] s0[k0]).token == t;
                                assert(token_shaped(entries0[i as int].1@[k0].token));
                            }
                        } else {
                            assert(token_shaped(entries0[a].1@[k].token));
                        }
                    }
                    assert forall|w: Seq<char>|
                        #[trigger] self.word_in_chain(w) == (old(self).word_in_chain(w) || token@
                            == TokenModel::Word(w)) by {
                        let s0 = entries0[i as int].1@;
                        let s1 = self.chain@[i as int].1@;
                        crate::link::lemma_token_count_exists(s0, TokenModel::Word(w));
                        crate::link::lemma_token_count_exists(s1, TokenModel::Word(w));
                        if old(self).word_in_chain(w) {
                            let (a, k) = choose|a: int, k: int|
                                0 <= a < entries0.len() && 0 <= k < entries0[a].1@.len()
                                    && (#[trigger] entries0[a].1@[k]).token == TokenModel::Word(w);
                            if a != i {
                                assert(self.chain@[a].1@[k].token == TokenModel::Word(w));
                            } else {
                                assert(token_count(s0, TokenModel::Word(w)) > 0);
                                assert(token_count(s1, TokenModel::Word(w)) > 0);
                                let k1 = choose|k1: int|
                                    0 <= k1 < s1.len() && (#[trigger] s1[k1]).token
                                        == TokenModel::Word(w);
                                assert(self.chain@[i as int].1@[k1].token == TokenModel::Word(w));
                            }
                        }
                        if token@ == TokenModel::Word(w) {
                            assert(token_count(s1, TokenModel::Word(w)) > 0);
                            let k1 = choose|k1: int|
                                0 <= k1 < s1.len() && (#[trigger] s1[k1]).token == TokenModel::Word(
                                    w,
                                );
                            assert(self.chain@[i as int].1@[k1].token == TokenModel::Word(w));
                        }
                        if self.word_in_chain(w) {
                            let (a, k) = choose|a: int, k: int|
                                0 <= a < self.chain@.len() && 0 <= k < self.chain@[a].1@.len()
                                    && (#[trigger] self.chain@[a].1@[k]).token == TokenModel::Word(
                                    w,
                                );
                            if a != i {
                                assert(entries0[a].1@[k].token == TokenModel::Word(w));
                            } else {
                                assert(token_count(s1, TokenModel::Word(w)) > 0);
                                if token@ != TokenModel::Word(w) {
                                    assert(token_count(s0, TokenModel::Word(w)) > 0);
                                    let k0 = choose|k0: int|
                                        0 <= k0 < s0.len() && (#[trigger] s0[k0]).token
                                            == TokenModel::Word(w);
                                    assert(entries0[i as int].1@[k0].token == TokenModel::Word(w));
                                }
                            }
                        }
                    }
                }
            },
            None => {
                let mut ls = LinkSet::new();
                proof {
                    assert(total_of(ls@) == 0);
                    assert(token_count(ls@, token@) == 0);
                }
                ls.insert(token);
                self.chain.push((context, ls));
                proof {
                    let pair = self.chain@[self.chain@.len() - 1];
                    assert(self.chain@ == entries0.push(pair));
                    lemma_lookup_index(entries0, ctxv);
                    assert(forall|a: int|
                        0 <= a < entries0.len() ==> (#[trigger] entries0[a]).0.deep_view() != ctxv);
                    lemma_lookup_push(entries0, pair);
                    assert forall|a: int, k: int|
                        0 <= a < self.chain@.len() && 0 <= k
                            < self.chain@[a].1@.len() implies token_shaped(
                        (#[trigger] self.chain@[a].1@[k]).token,
                    ) by {
                        if a == entries0.len() {
                            let s1 = pair.1@;
                            let t = s1[k].token;
                            crate::link::lemma_token_count_exists(s1, t);
                            assert(token_count(s1, t) > 0);
                            assert(t == token@);
                        } else {
                            assert(token_shaped(entries0[a].1@[k].token));
                        }
                    }
                    assert forall|w: Seq<char>|
                        #[trigger] self.word_in_chain(w) == (old(self).word_in_chain(w) || token@
                            == TokenModel::Word(w)) by {
                        let s1 = pair.1@;
                        crate::link::lemma_token_count_exists(s1, TokenModel::Word(w));
                        if old(self).word_in_chain(w) {
                            let (a, k) = choose|a: int, k: int|
                                0 <= a < entries0.len() && 0 <= k < entries0[a].1@.len()
                                    && (#[trigger] entries0[a].1@[k]).token == TokenModel::Word(w);
                            assert(self.chain@[a].1@[k].token == TokenModel::Word(w));
                        }
                        if token@ == TokenModel::Word(w) {
                            assert(token_count(s1, TokenModel::Word(w)) > 0);
                            let k1 = choose|k1: int|
                                0 <= k1 < s1.len() && (#[trigger] s1[k1]).token == TokenModel::Word(
                                    w,
                                );
                            assert(self.chain@[self.chain@.len() - 1].1@[k1].token
                                == TokenModel::Word(w));
                        }
                        if self.word_in_chain(w) {
                            let (a, k) = choose|a: int, k: int|
                                0 <= a < self.chain@.len() && 0 <= k < self.chain@[a].1@.len()
                                    && (#[trigger] self.chain@[a].1@[k]).token == TokenModel::Word(
                                    w,
                                );
                            if a < entries0.len() {
                                assert(entries0[a].1@[k].token == TokenModel::Word(w));
                            } else {
                                assert(token_count(s1, TokenModel::Word(w)) > 0);
                            }
                        }
                    }
                }
            },
        }
    }
}


/// How many of the first `k` windows of width `w` in `ws` read context
/// `c` followed by token `t`.
pub open spec fn windows_upto(
    ws: Seq<Seq<char>>,
    w: int,
    k: int,
    c: Seq<Seq<char>>,
    t: TokenModel,
) -> nat
    decreases k,
{
    if k <= 0 {
        0
    } else {
        windows_upto(ws, w, k - 1, c, t) + (if ws.subrange(k - 1, k - 1 + w) == c && t
            == TokenModel::Word(ws[k - 1 + w]) {
            1nat
        } else {
            0nat
        })
    }
}

/// What one sentence contributes at width `w`: its interior windows and
/// its end link, which marks that the sentence may stop after its last
/// `w` words.
pub open spec fn width_contrib(ws: Seq<Seq<char>>, w: int, c: Seq<Seq<char>>, t: TokenModel) -> nat {
    windows_upto(ws, w, ws.len() - w, c, t) + (if c == ws.skip(ws.len() - w) && t
        == TokenModel::End {
        1nat
    } else {
        0nat
    })
}

/// What one sentence contributes over all widths `1..=d`.
pub open spec fn contrib_upto(ws: Seq<Seq<char>>, d: int, c: Seq<Seq<char>>, t: TokenModel) -> nat
    decreases d,
{
    if d <= 0 {
        0
    } else {
        contrib_upto(ws, d - 1, c, t) + width_contrib(ws, d, c, t)
    }
}

/// How often training one sentence raises the count of token `t` after
/// context `c`: its windows of every width from 1 up to the effective
/// depth `min(depth, n - 1)`.  A sentence without words, and a sentence
/// of one word, contributes no link at all.
pub open spec fn sentence_contrib(depth: int, s: Seq<char>, c: Seq<Seq<char>>, t: TokenModel) -> nat {
    let ws = spec_words(s);
    if ws.len() == 0 {
        0
    } else {
        contrib_upto(ws, vstd::math::min(depth, ws.len() - 1), c, t)
    }
}

/// How many link occurrences the widths `1..=d` of an `n`-word sentence
/// record: `n - w + 1` per width `w`.
pub open spec fn added_upto(n: int, d: int) -> nat
    decreases d,
{
    if d <= 0 {
        0
    } else {
        added_upto(n, d - 1) + (if d < n {
            (n - d + 1) as nat
        } else {
            0nat
        })
    }
}

/// How many link occurrences training one sentence records in all.
pub open spec fn links_added(depth: int, s: Seq<char>) -> nat {
    let ws = spec_words(s);
    if ws.len() == 0 {
        0
    } else {
        added_upto(ws.len() as int, vstd::math::min(depth, ws.len() - 1))
    }
}

/// The entry points after training one sentence: its first word is
/// appended if the sentence has one and it is not yet registered.
pub open spec fn push_entry(eps: Seq<Seq<char>>, s: Seq<char>) -> Seq<Seq<char>> {
    let ws = spec_words(s);
    if ws.len() == 0 {
        eps
    } else if eps.contains(ws[0]) {
        eps
    } else {
        eps.push(ws[0])
    }
}

/// One sentence records at most `depth` times its length in links.
proof fn lemma_links_added_le(depth: int, s: Seq<char>)
    requires
        depth >= 0,
    ensures
        links_added(depth, s) <= depth * s.len(),
{
    lemma_split_runs_shape(s, crate::text::space_pred());
    let ws = spec_words(s);
    let n = ws.len() as int;
    if n > 0 {
        let d = vstd::math::min(depth, n - 1);
        if d >= 1 {
            lemma_added_le(n, d);
            assert(d * n <= depth * s.len()) by (nonlinear_arith)
                requires
                    0 <= d <= depth,
                    0 <= n <= s.len(),
            ;
        }
    }
    assert(depth * s.len() >= 0) by (nonlinear_arith)
        requires
            depth >= 0,
            s.len() >= 0,
    ;
}

proof fn lemma_added_mono(n: int, d1: int, d2: int)
    requires
        d1 <= d2,
    ensures
        added_upto(n, d1) <= added_upto(n, d2),
    decreases d2,
{
    if d2 > 0 && d1 < d2 {
        lemma_added_mono(n, d1, d2 - 1);
    }
}

proof fn lemma_added_le(n: int, d: int)
    requires
        0 <= d < n,
    ensures
        added_upto(n, d) <= d * n,
    decreases d,
{
    if d > 0 {
        lemma_added_le(n, d - 1);
        assert((d - 1) * n + n == d * n) by (nonlinear_arith);
        assert(n - d + 1 <= n);
    }
}

/// The stretch `v[a..b]` of a word list, as an owned copy.
fn subvec(v: &Vec<String>, a: usize, b: usize) -> (r: Vec<String>)
    requires
        a <= b <= v@.len(),
    ensures
        r.deep_view() == v.deep_view().subrange(a as int, b as int),
{
    let mut r: Vec<String> = Vec::new();
    let mut k = a;
    proof {
        assert(r.deep_view() =~= v.deep_view().subrange(a as int, a as int));
    }
    while k < b
        invariant
            a <= k <= b <= v@.len(),
            r.deep_view() == v.deep_view().subrange(a as int, k as int),
        decreases b - k,
    {
        let ghost r0 = r.deep_view();
        r.push(v[k].clone());
        proof {
            assert(r.deep_view() =~= r0.push(v@[k as int]@));
            assert(v.deep_view()[k as int] == v@[k as int]@);
            assert(r0.push(v@[k as int]@) =~= v.deep_view().subrange(a as int, k as int + 1));
        }
        k = k + 1;
    }
    r
}

impl Markov {
    /// Whether `w` is already an entry point.
    fn contains_entry(&self, w: &String) -> (r: bool)
        ensures
            r == self.entry_points_view().contains(w@),
    {
        let n = self.entry_points.len();
        let mut i: usize = 0;
        while i < n
            invariant
                i <= n,
                n == self.entry_points@.len(),
                forall|k: int| 0 <= k < i ==> self.entry_points_view()[k] != w@,
            decreases n - i,
        {
            proof {
                assert(self.entry_points_view()[i as int] == self.entry_points@[i as int]@);
            }
            if self.entry_points[i] == *w {
                return true;
            }
            i = i + 1;
        }
        proof {
            if self.entry_points_view().contains(w@) {
                let k = choose|k: int|
                    0 <= k < self.entry_points_view().len() && self.entry_points_view()[k] == w@;
            }
        }
        false
    }

    /// Trains one sentence: registers its first word as an entry point
    /// and records every window of every width from 1 up to the effective
    /// depth, plus one end link per width.  Every stored (context, token)
    /// count rises by exactly the sentence's contribution.
    #[verifier::loop_isolation(false)]
    #[verifier::rlimit(100)]
    pub fn train_sentence(&mut self, sentence: &str)
        requires
            old(self).wf(),
            old(self).total() + old(self).spec_depth() * sentence@.len() <= usize::MAX,
        ensures
            final(self).wf(),
            final(self).spec_depth() == old(self).spec_depth(),
            final(self).entry_points_view() == push_entry(
                old(self).entry_points_view(),
                sentence@,
            ),
            forall|c: Seq<Seq<char>>, t: TokenModel|
                #[trigger] final(self).spec_count(c, t) == old(self).spec_count(c, t)
                    + sentence_contrib(old(self).spec_depth(), sentence@, c, t),
            final(self).total() == old(self).total() + links_added(
                old(self).spec_depth(),
                sentence@,
            ),
            forall|c: Seq<Seq<char>>|
                old(self).has_context(c) ==> #[trigger] final(self).has_context(c),
            spec_words(sentence@).len() >= 2 ==> forall|i: int|
                0 <= i < spec_words(sentence@).len() ==> final(self).has_context(
                    seq![#[trigger] spec_words(sentence@)[i]],
                ),
            old(self).supported() && spec_words(sentence@).len() != 1 ==> final(self).supported(),
    {
        let ghost depth0 = old(self).spec_depth();
        proof {
            lemma_split_runs_shape(sentence@, crate::text::space_pred());
        }
        let words = split_words(sentence);
        let ghost ws = words.deep_view();
        proof {
            assert(forall|i: int| 0 <= i < ws.len() ==> word_shaped(#[trigger] ws[i]));
            assert(ws.len() <= sentence@.len());
        }
        let n = words.len();
        if n == 0 {
            return;
        }
        // Entry point registration.
        if !self.contains_entry(&words[0]) {
            let ghost eps0 = self.entry_points.deep_view();
            self.entry_points.push(words[0].clone());
            proof {
                assert(self.entry_points.deep_view() =~= eps0.push(ws[0]));
                assert(words.deep_view()[0] == words@[0]@);
            }
        }
        let ghost eps1 = self.entry_points_view();
        proof {
            assert(eps1 == push_entry(old(self).entry_points_view(), sentence@));
        }
        let d: usize = if self.depth < n - 1 {
            self.depth
        } else {
            n - 1
        };
        proof {
            assert(d == vstd::math::min(depth0, n - 1));
            lemma_added_le(n as int, d as int);
            assert(d * n <= depth0 * sentence@.len()) by (nonlinear_arith)
                requires
                    0 <= d <= depth0,
                    0 <= n <= sentence@.len(),
            ;
        }
        let ghost total0 = self.total();
        let ghost count0 = *self;
        let mut w: usize = 1;
        while w <= d
            invariant
                1 <= w <= d + 1,
                self.wf(),
                self.spec_depth() == depth0,
                self.entry_points_view() == eps1,
                forall|c: Seq<Seq<char>>, t: TokenModel|
                    #[trigger] self.spec_count(c, t) == count0.spec_count(c, t) + contrib_upto(
                        ws,
                        w - 1,
                        c,
                        t,
                    ),
                self.total() == total0 + added_upto(n as int, w - 1),
                forall|c: Seq<Seq<char>>|
                    count0.has_context(c) ==> #[trigger] self.has_context(c),
                forall|u: Seq<char>|
                    #[trigger] self.word_in_chain(u) ==> count0.word_in_chain(u) || exists|i: int|
                        0 <= i < ws.len() && u == #[trigger] ws[i],
                w >= 2 ==> forall|i: int|
                    0 <= i < ws.len() ==> self.has_context(seq![#[trigger] ws[i]]),
            decreases d + 1 - w,
        {
            let mut k: usize = 0;
            while k < n - w
                invariant
                    0 <= k <= n - w,
                    1 <= w <= d,
                    self.wf(),
                    self.spec_depth() == depth0,
                    self.entry_points_view() == eps1,
                    forall|c: Seq<Seq<char>>, t: TokenModel|
                        #[trigger] self.spec_count(c, t) == count0.spec_count(c, t) + contrib_upto(
                            ws,
                            w - 1,
                            c,
                            t,
                        ) + windows_upto(ws, w as int, k as int, c, t),
                    self.total() == total0 + added_upto(n as int, w - 1) + k,
                    forall|c: Seq<Seq<char>>|
                        count0.has_context(c) ==> #[trigger] self.has_context(c),
                    forall|u: Seq<char>|
                        #[trigger] self.word_in_chain(u) ==> count0.word_in_chain(u) || exists|
                            i: int,
                        | 0 <= i < ws.len() && u == #[trigger] ws[i],
                    w >= 2 ==> forall|i: int|
                        0 <= i < ws.len() ==> self.has_context(seq![#[trigger] ws[i]]),
                    forall|i: int| 0 <= i < k ==> self.has_context(seq![#[trigger] ws[i]]),
                decreases n - w - k,
            {
                let ctx = subvec(&words, k, k + w);
                let tok = Token::Word(words[k + w].clone());
                proof {
                    assert(ctx.deep_view() == ws.subrange(k as int, k as int + w));
                    assert(tok@ == TokenModel::Word(ws[k + w]));
                    assert(word_shaped(ws[k + w]));
                    // Budget: the links recorded so far stay under the total.
                    lemma_added_mono(n as int, w as int, d as int);
                    assert(added_upto(n as int, w as int) == added_upto(n as int, w - 1) + (n - w
                        + 1));
                    assert(self.total() < usize::MAX);
                }
                self.train_link(ctx, tok);
                proof {
                    assert forall|c: Seq<Seq<char>>, t: TokenModel|
                        #[trigger] self.spec_count(c, t) == count0.spec_count(c, t) + contrib_upto(
                            ws,
                            w - 1,
                            c,
                            t,
                        ) + windows_upto(ws, w as int, k as int + 1, c, t) by {
                        assert(windows_upto(ws, w as int, k as int + 1, c, t) == windows_upto(
                            ws,
                            w as int,
                            k as int,
                            c,
                            t,
                        ) + (if ws.subrange(k as int, k as int + w) == c && t == TokenModel::Word(
                            ws[k + w],
                        ) {
                            1nat
                        } else {
                            0nat
                        }));
                    }
                    if w == 1 {
                        assert(ctx.deep_view() =~= seq![ws[k as int]]);
                        assert(self.has_context(seq![ws[k as int]]));
                        assert forall|i: int| 0 <= i < k + 1 implies self.has_context(
                            seq![#[trigger] ws[i]],
                        ) by {}
                    }
                }
                k = k + 1;
            }
            // End link: the sentence may stop after its last `w` words.
            let ctx = subvec(&words, n - w, n);
            proof {
                assert(ctx.deep_view() == ws.subrange(n - w, n as int));
                assert(ws.subrange(n - w, n as int) =~= ws.skip(n - w));
                lemma_added_mono(n as int, w as int, d as int);
                assert(added_upto(n as int, w as int) == added_upto(n as int, w - 1) + (n - w + 1));
                assert(self.total() < usize::MAX);
            }
            self.train_link(ctx, Token::End);
            proof {
                assert forall|c: Seq<Seq<char>>, t: TokenModel|
                    #[trigger] self.spec_count(c, t) == count0.spec_count(c, t) + contrib_upto(
                        ws,
                        w as int,
                        c,
                        t,
                    ) by {
                    assert(contrib_upto(ws, w as int, c, t) == contrib_upto(ws, w - 1, c, t)
                        + width_contrib(ws, w as int, c, t));
                }
                if w == 1 {
                    assert(ctx.deep_view() =~= seq![ws[n - 1]]);
                    assert forall|i: int| 0 <= i < ws.len() implies self.has_context(
                        seq![#[trigger] ws[i]],
                    ) by {}
                }
            }
            w = w + 1;
        }
        proof {
            assert forall|c: Seq<Seq<char>>, t: TokenModel|
                #[trigger] self.spec_count(c, t) == old(self).spec_count(c, t) + sentence_contrib(
                    depth0,
                    sentence@,
                    c,
                    t,
                ) by {
                assert(count0.spec_count(c, t) == old(self).spec_count(c, t));
                assert(sentence_contrib(depth0, sentence@, c, t) == contrib_upto(
                    ws,
                    d as int,
                    c,
                    t,
                ));
            }
            assert(links_added(depth0, sentence@) == added_upto(n as int, d as int));
            if old(self).supported() && ws.len() != 1 {
                assert(n >= 2);
                assert forall|e: int|
                    0 <= e < self.entry_points_view().len() implies self.has_context(
                    seq![#[trigger] self.entry_points_view()[e]],
                ) by {
                    if e < old(self).entry_points_view().len() {
                        assert(old(self).has_context(seq![old(self).entry_points_view()[e]]));
                    } else {
                        assert(self.entry_points_view()[e] == ws[0]);
                    }
                }
                assert forall|u: Seq<char>| #[trigger] self.word_in_chain(u) implies
                    self.has_context(seq![u]) by {
                    if count0.word_in_chain(u) {
                        let (a, kk) = choose|a: int, kk: int|
                            0 <= a < count0.chain@.len() && 0 <= kk < count0.chain@[a].1@.len()
                                && (#[trigger] count0.chain@[a].1@[kk]).token == TokenModel::Word(
                                u,
                            );
                        assert(old(self).chain@[a].1@[kk].token == TokenModel::Word(u));
                        assert(old(self).word_in_chain(u));
                        assert(old(self).has_context(seq![u]));
                        assert(count0.has_context(seq![u]));
                    } else {
                        let i = choose|i: int| 0 <= i < ws.len() && u == #[trigger] ws[i];
                        assert(self.has_context(seq![ws[i]]));
                    }
                }
            }
        }
    }
}


/// The contributions of a list of sentences, in order.
pub open spec fn sentences_contrib(
    depth: int,
    ss: Seq<Seq<char>>,
    c: Seq<Seq<char>>,
    t: TokenModel,
) -> nat
    decreases ss.len(),
{
    if ss.len() == 0 {
        0
    } else {
        sentence_contrib(depth, ss[0], c, t) + sentences_contrib(depth, ss.drop_first(), c, t)
    }
}

/// The entry points after training a list of sentences, in order.
pub open spec fn push_entries(eps: Seq<Seq<char>>, ss: Seq<Seq<char>>) -> Seq<Seq<char>>
    decreases ss.len(),
{
    if ss.len() == 0 {
        eps
    } else {
        push_entries(push_entry(eps, ss[0]), ss.drop_first())
    }
}

proof fn lemma_sentences_contrib_snoc(
    depth: int,
    ss: Seq<Seq<char>>,
    k: int,
    c: Seq<Seq<char>>,
    t: TokenModel,
)
    requires
        0 <= k < ss.len(),
    ensures
        sentences_contrib(depth, ss.take(k + 1), c, t) == sentences_contrib(
            depth,
            ss.take(k),
            c,
            t,
        ) + sentence_contrib(depth, ss[k], c, t),
    decreases k,
{
    if k == 0 {
        assert(ss.take(1)[0] == ss[0]);
        assert(ss.take(1).drop_first() =~= Seq::<Seq<char>>::empty());
        assert(ss.take(0) =~= Seq::<Seq<char>>::empty());
    } else {
        let d = ss.drop_first();
        assert(forall|i: int| 0 <= i < d.len() ==> #[trigger] d[i] == ss[i + 1]);
        lemma_sentences_contrib_snoc(depth, d, k - 1, c, t);
        assert(ss.take(k + 1)[0] == ss[0]);
        assert(ss.take(k + 1).drop_first() =~= d.take(k));
        assert(ss.take(k)[0] == ss[0]);
        assert(ss.take(k).drop_first() =~= d.take(k - 1));
        assert(d[k - 1] == ss[k]);
    }
}

proof fn lemma_push_entries_snoc(eps: Seq<Seq<char>>, ss: Seq<Seq<char>>, k: int)
    requires
        0 <= k < ss.len(),
    ensures
        push_entries(eps, ss.take(k + 1)) == push_entry(push_entries(eps, ss.take(k)), ss[k]),
    decreases k,
{
    if k == 0 {
        assert(ss.take(1)[0] == ss[0]);
        assert(ss.take(1).drop_first() =~= Seq::<Seq<char>>::empty());
        assert(ss.take(0) =~= Seq::<Seq<char>>::empty());
        assert(push_entries(eps, ss.take(1)) == push_entries(
            push_entry(eps, ss[0]),
            ss.take(1).drop_first(),
        ));
        assert(push_entries(push_entry(eps, ss[0]), Seq::<Seq<char>>::empty()) == push_entry(
            eps,
            ss[0],
        ));
        assert(push_entries(eps, ss.take(0)) == eps);
    } else {
        let d = ss.drop_first();
        assert(forall|i: int| 0 <= i < d.len() ==> #[trigger] d[i] == ss[i + 1]);
        lemma_push_entries_snoc(push_entry(eps, ss[0]), d, k - 1);
        assert(ss.take(k + 1)[0] == ss[0]);
        assert(ss.take(k + 1).drop_first() =~= d.take(k));
        assert(ss.take(k)[0] == ss[0]);
        assert(ss.take(k).drop_first() =~= d.take(k - 1));
        assert(d[k - 1] == ss[k]);
        assert(push_entries(eps, ss.take(k + 1)) == push_entries(push_entry(eps, ss[0]), d.take(k)));
        assert(push_entries(eps, ss.take(k)) == push_entries(
            push_entry(eps, ss[0]),
            d.take(k - 1),
        ));
    }
}

proof fn lemma_sum_lens_snoc(ss: Seq<Seq<char>>, k: int)
    requires
        0 <= k < ss.len(),
    ensures
        sum_lens(ss.take(k + 1)) == sum_lens(ss.take(k)) + ss[k].len(),
    decreases k,
{
    if k == 0 {
        assert(ss.take(1)[0] == ss[0]);
        assert(ss.take(1).drop_first() =~= Seq::<Seq<char>>::empty());
        assert(ss.take(0) =~= Seq::<Seq<char>>::empty());
    } else {
        let d = ss.drop_first();
        assert(forall|i: int| 0 <= i < d.len() ==> #[trigger] d[i] == ss[i + 1]);
        lemma_sum_lens_snoc(d, k - 1);
        assert(ss.take(k + 1)[0] == ss[0]);
        assert(ss.take(k + 1).drop_first() =~= d.take(k));
        assert(ss.take(k)[0] == ss[0]);
        assert(ss.take(k).drop_first() =~= d.take(k - 1));
        assert(d[k - 1] == ss[k]);
    }
}

proof fn lemma_sum_lens_take_le(ss: Seq<Seq<char>>, k: int)
    requires
        0 <= k <= ss.len(),
    ensures
        sum_lens(ss.take(k)) <= sum_lens(ss),
    decreases ss.len(),
{
    if k == 0 {
        assert(ss.take(0) =~= Seq::<Seq<char>>::empty());
    } else {
        let d = ss.drop_first();
        lemma_sum_lens_take_le(d, k - 1);
        assert(ss.take(k)[0] == ss[0]);
        assert(ss.take(k).drop_first() =~= d.take(k - 1));
    }
}

impl Markov {
    /// Trains every sentence of `text`, splitting on the given boundary
    /// characters, skipping empty sentences, in left-to-right order.
    #[verifier::loop_isolation(false)]
    #[verifier::rlimit(100)]
    pub fn train_text(&mut self, text: &str, delimiters: &Vec<char>)
        requires
            old(self).wf(),
            old(self).total() + old(self).spec_depth() * text@.len() <= usize::MAX,
        ensures
            final(self).wf(),
            final(self).spec_depth() == old(self).spec_depth(),
            forall|c: Seq<Seq<char>>, t: TokenModel|
                #[trigger] final(self).spec_count(c, t) == old(self).spec_count(c, t)
                    + sentences_contrib(
                    old(self).spec_depth(),
                    spec_sentences(text@, delimiters@),
                    c,
                    t,
                ),
            final(self).entry_points_view() == push_entries(
                old(self).entry_points_view(),
                spec_sentences(text@, delimiters@),
            ),
            final(self).total() <= old(self).total() + old(self).spec_depth() * text@.len(),
            forall|c: Seq<Seq<char>>|
                old(self).has_context(c) ==> #[trigger] final(self).has_context(c),
            old(self).supported() && (forall|i: int|
                0 <= i < spec_sentences(text@, delimiters@).len() ==> spec_words(
                    #[trigger] spec_sentences(text@, delimiters@)[i],
                ).len() != 1) ==> final(self).supported(),
    {
        let ghost depth0 = old(self).spec_depth();
        let ghost total0 = old(self).total();
        proof {
            lemma_split_runs_shape(text@, crate::text::delim_pred(delimiters@));
        }
        let sentences = split_sentences(text, delimiters);
        let ghost ss = sentences.deep_view();
        proof {
            assert(sum_lens(ss) <= text@.len());
        }
        let m = sentences.len();
        let mut k: usize = 0;
        proof {
            assert(ss.take(0) =~= Seq::<Seq<char>>::empty());
        }
        while k < m
            invariant
                k <= m,
                self.wf(),
                self.spec_depth() == depth0,
                forall|c: Seq<Seq<char>>, t: TokenModel|
                    #[trigger] self.spec_count(c, t) == old(self).spec_count(c, t)
                        + sentences_contrib(depth0, ss.take(k as int), c, t),
                self.entry_points_view() == push_entries(
                    old(self).entry_points_view(),
                    ss.take(k as int),
                ),
                self.total() <= total0 + depth0 * sum_lens(ss.take(k as int)),
                forall|c: Seq<Seq<char>>|
                    old(self).has_context(c) ==> #[trigger] self.has_context(c),
                old(self).supported() && (forall|i: int|
                    0 <= i < k ==> spec_words(#[trigger] ss[i]).len() != 1) ==> self.supported(),
            decreases m - k,
        {
            proof {
                lemma_sum_lens_snoc(ss, k as int);
                lemma_sum_lens_take_le(ss, k as int + 1);
                assert(sentences.deep_view()[k as int] == sentences@[k as int]@);
                assert(depth0 * sum_lens(ss.take(k as int)) + depth0 * ss[k as int].len()
                    <= depth0 * sum_lens(ss)) by (nonlinear_arith)
                    requires
                        depth0 >= 0,
                        sum_lens(ss.take(k as int)) + ss[k as int].len() <= sum_lens(ss),
                ;
                assert(depth0 * sum_lens(ss) <= depth0 * text@.len()) by (nonlinear_arith)
                    requires
                        depth0 >= 0,
                        sum_lens(ss) <= text@.len(),
                ;
            }
            self.train_sentence(sentences[k].as_str());
            proof {
                lemma_sentences_contrib_snoc_all(depth0, ss, k as int);
                lemma_push_entries_snoc(old(self).entry_points_view(), ss, k as int);
                lemma_links_added_le(depth0, ss[k as int]);
                assert(depth0 * sum_lens(ss.take(k as int)) + depth0 * ss[k as int].len()
                    == depth0 * sum_lens(ss.take(k as int + 1))) by (nonlinear_arith)
                    requires
                        sum_lens(ss.take(k as int + 1)) == sum_lens(ss.take(k as int))
                            + ss[k as int].len(),
                ;
            }
            k = k + 1;
        }
        proof {
            assert(ss.take(m as int) =~= ss);
            assert(depth0 * sum_lens(ss) <= depth0 * text@.len()) by (nonlinear_arith)
                requires
                    depth0 >= 0,
                    sum_lens(ss) <= text@.len(),
            ;
        }
    }

    /// The number of distinct contexts stored, and the total number of
    /// distinct successor links over all contexts.
    pub fn num_contexts_links(&self) -> (r: (usize, usize))
        requires
            self.wf(),
        ensures
            r.0 == self.num_contexts(),
            r.1 == self.num_links(),
    {
        proof {
            lemma_links_le_grand(self.chain@);
        }
        let n = self.chain.len();
        let mut total: usize = 0;
        let mut k: usize = 0;
        proof {
            assert(links_count(self.chain@.take(0)) == 0) by {
                assert(self.chain@.take(0) =~= Seq::<ChainEntry>::empty());
            }
        }
        while k < n
            invariant
                k <= n,
                n == self.chain@.len(),
                self.wf(),
                total == links_count(self.chain@.take(k as int)),
                total <= grand_total(self.chain@),
            decreases n - k,
        {
            proof {
                lemma_links_count_snoc(self.chain@, k as int);
                lemma_links_take_le_grand(self.chain@, k as int + 1);
            }
            total = total + self.chain[k].1.len();
            k = k + 1;
        }
        proof {
            assert(self.chain@.take(n as int) =~= self.chain@);
        }
        (n, total)
    }

    /// How often training saw `token` follow `context`: zero when the
    /// context was never trained or never followed by that token.
    pub fn link_count(&self, context: &Vec<String>, token: &Token) -> (r: usize)
        requires
            self.wf(),
        ensures
            r == self.spec_count(context.deep_view(), token@),
    {
        match self.find_entry(context) {
            Option::None => 0,
            Option::Some(i) => {
                proof {
                    assert(self.spec_count(context.deep_view(), token@) == token_count(
                        self.chain@[i as int].1@,
                        token@,
                    ));
                }
                let ls = &self.chain[i].1;
                proof {
                    assert(ls@ == self.chain@[i as int].1@);
                }
                let m = ls.len();
                let mut k: usize = 0;
                while k < m
                    invariant
                        k <= m,
                        m == ls@.len(),
                        links_wf(ls@),
                        self.spec_count(context.deep_view(), token@) == token_count(ls@, token@),
                        forall|j: int| 0 <= j < k ==> (#[trigger] ls@[j]).token != token@,
                    decreases m - k,
                {
                    let l = ls.get(k);
                    if l.token.is(token) {
                        proof {
                            lemma_distinct_tokens_tally(ls@, k as int);
                            assert(ls@[k as int].token == token@);
                            assert(token_count(ls@, token@) == ls@[k as int].count);
                        }
                        return l.count;
                    }
                    k = k + 1;
                }
                proof {
                    crate::link::lemma_token_count_exists(ls@, token@);
                    if token_count(ls@, token@) > 0 {
                        let j = choose|j: int|
                            0 <= j < ls@.len() && (#[trigger] ls@[j]).token == token@;
                    }
                }
                0
            },
        }
    }
}

/// Training the same sentences in any order leaves every (context, token)
/// count the same: each sentence adds a contribution that depends on the
/// sentence alone, so the sum is invariant under reordering.  Stated for
/// two sentence lists that are permutations of each other.
pub proof fn lemma_training_order_irrelevant(
    depth: int,
    ss1: Seq<Seq<char>>,
    ss2: Seq<Seq<char>>,
    c: Seq<Seq<char>>,
    t: TokenModel,
)
    requires
        ss1.to_multiset() == ss2.to_multiset(),
    ensures
        sentences_contrib(depth, ss1, c, t) == sentences_contrib(depth, ss2, c, t),
    decreases ss1.len(),
{
    broadcast use vstd::seq_lib::group_to_multiset_ensures;

    if ss1.len() == 0 {
        assert(ss2.to_multiset().len() == 0);
        assert(ss2.len() == 0);
    } else {
        let x = ss1[0];
        assert(ss1.to_multiset().contains(x)) by {
            assert(ss1.contains(x));
        }
        assert(ss2.to_multiset().contains(x));
        assert(ss2.contains(x));
        let j = choose|j: int| 0 <= j < ss2.len() && ss2[j] == x;
        let r1 = ss1.drop_first();
        let r2 = ss2.remove(j);
        assert(ss1.remove(0) =~= r1);
        assert(r1.to_multiset() =~= ss1.to_multiset().remove(x));
        assert(r2.to_multiset() =~= ss2.to_multiset().remove(x));
        lemma_training_order_irrelevant(depth, r1, r2, c, t);
        lemma_sentences_contrib_remove(depth, ss2, j, c, t);
    }
}

/// Removing one sentence takes away exactly its contribution.
proof fn lemma_sentences_contrib_remove(
    depth: int,
    ss: Seq<Seq<char>>,
    j: int,
    c: Seq<Seq<char>>,
    t: TokenModel,
)
    requires
        0 <= j < ss.len(),
    ensures
        sentences_contrib(depth, ss, c, t) == sentences_contrib(depth, ss.remove(j), c, t)
            + sentence_contrib(depth, ss[j], c, t),
    decreases j,
{
    if j == 0 {
        assert(ss.remove(0) =~= ss.drop_first());
    } else {
        let d = ss.drop_first();
        assert(forall|i: int| 0 <= i < d.len() ==> #[trigger] d[i] == ss[i + 1]);
        lemma_sentences_contrib_remove(depth, d, j - 1, c, t);
        assert(ss.remove(j)[0] == ss[0]);
        assert(ss.remove(j).drop_first() =~= d.remove(j - 1));
        assert(d[j - 1] == ss[j]);
    }
}

proof fn lemma_sentences_contrib_snoc_all(depth: int, ss: Seq<Seq<char>>, k: int)
    requires
        0 <= k < ss.len(),
    ensures
        forall|c: Seq<Seq<char>>, t: TokenModel|
            #[trigger] sentences_contrib(depth, ss.take(k + 1), c, t) == sentences_contrib(
                depth,
                ss.take(k),
                c,
                t,
            ) + sentence_contrib(depth, ss[k], c, t),
{
    assert forall|c: Seq<Seq<char>>, t: TokenModel|
        #[trigger] sentences_contrib(depth, ss.take(k + 1), c, t) == sentences_contrib(
            depth,
            ss.take(k),
            c,
            t,
        ) + sentence_contrib(depth, ss[k], c, t) by {
        lemma_sentences_contrib_snoc(depth, ss, k, c, t);
    }
}

/// Every link set holds at least one link, so the link tally never
/// exceeds the count tally.
proof fn lemma_links_le_grand(entries: Seq<ChainEntry>)
    requires
        forall|a: int| 0 <= a < entries.len() ==> links_wf((#[trigger] entries[a]).1@),
    ensures
        links_count(entries) <= grand_total(entries),
    decreases entries.len(),
{
    if entries.len() > 0 {
        let d = entries.drop_first();
        assert(forall|i: int| 0 <= i < d.len() ==> #[trigger] d[i] == entries[i + 1]);
        lemma_links_le_grand(d);
        lemma_len_le_total(entries[0].1@);
    }
}

proof fn lemma_len_le_total(s: Seq<LinkModel>)
    requires
        forall|i: int| 0 <= i < s.len() ==> (#[trigger] s[i]).count >= 1,
    ensures
        s.len() <= total_of(s),
    decreases s.len(),
{
    if s.len() > 0 {
        let d = s.drop_first();
        assert(forall|i: int| 0 <= i < d.len() ==> #[trigger] d[i] == s[i + 1]);
        lemma_len_le_total(d);
    }
}

proof fn lemma_links_count_snoc(entries: Seq<ChainEntry>, k: int)
    requires
        0 <= k < entries.len(),
    ensures
        links_count(entries.take(k + 1)) == links_count(entries.take(k)) + entries[k].1@.len(),
    decreases k,
{
    if k == 0 {
        assert(entries.take(1)[0] == entries[0]);
        assert(entries.take(1).drop_first() =~= Seq::<ChainEntry>::empty());
        assert(entries.take(0) =~= Seq::<ChainEntry>::empty());
    } else {
        let d = entries.drop_first();
        assert(forall|i: int| 0 <= i < d.len() ==> #[trigger] d[i] == entries[i + 1]);
        lemma_links_count_snoc(d, k - 1);
        assert(entries.take(k + 1)[0] == entries[0]);
        assert(entries.take(k + 1).drop_first() =~= d.take(k));
        assert(entries.take(k)[0] == entries[0]);
        assert(entries.take(k).drop_first() =~= d.take(k - 1));
        assert(d[k - 1] == entries[k]);
    }
}

proof fn lemma_links_take_le_grand(entries: Seq<ChainEntry>, k: int)
    requires
        0 <= k <= entries.len(),
        forall|a: int| 0 <= a < entries.len() ==> links_wf((#[trigger] entries[a]).1@),
    ensures
        links_count(entries.take(k)) <= grand_total(entries),
    decreases entries.len(),
{
    if k == 0 {
        assert(entries.take(0) =~= Seq::<ChainEntry>::empty());
    } else {
        let d = entries.drop_first();
        assert(forall|i: int| 0 <= i < d.len() ==> #[trigger] d[i] == entries[i + 1]);
        lemma_links_take_le_grand(d, k - 1);
        assert(entries.take(k)[0] == entries[0]);
        assert(entries.take(k).drop_first() =~= d.take(k - 1));
        lemma_len_le_total(entries[0].1@);
        lemma_counts_le_total(entries[0].1@);
    }
}


/// The models of an executable link list.
pub open spec fn links_view(s: Seq<Link>) -> Seq<LinkModel> {
    s.map_values(|l: Link| l@)
}

/// A defensive bound on generated sentence length: generation stops once
/// this many words stand, should the end marker never be drawn.  This is
/// a documented deviation from a fully unbounded sampling loop.
pub const MAX_GENERATED_WORDS: usize = 65536;

impl Markov {
    /// The weight of token `t` at context width `w`: its stored count
    /// under the last `w` words of `ctx`, scaled by `w`, so that longer
    /// matched contexts weigh proportionally more.
    pub closed spec fn width_weight(self, ctx: Seq<Seq<char>>, t: TokenModel, w: int) -> nat {
        match self.links_of(ctx.skip(ctx.len() - w)) {
            Option::None => 0,
            Option::Some(ls) => (w * token_count(ls, t)) as nat,
        }
    }

    /// The pooled weight of token `t` over all context widths `1..=w`.
    pub closed spec fn pooled_weight(self, ctx: Seq<Seq<char>>, t: TokenModel, w: int) -> nat
        decreases w,
    {
        if w <= 0 {
            0
        } else {
            self.pooled_weight(ctx, t, w - 1) + self.width_weight(ctx, t, w)
        }
    }

    /// The total weight at context width `w`.
    pub closed spec fn width_total(self, ctx: Seq<Seq<char>>, w: int) -> nat {
        match self.links_of(ctx.skip(ctx.len() - w)) {
            Option::None => 0,
            Option::Some(ls) => (w * total_of(ls)) as nat,
        }
    }

    /// The total pooled weight over all context widths `1..=w`.
    pub closed spec fn pooled_total(self, ctx: Seq<Seq<char>>, w: int) -> nat
        decreases w,
    {
        if w <= 0 {
            0
        } else {
            self.pooled_total(ctx, w - 1) + self.width_total(ctx, w)
        }
    }

    /// The pooled total is bounded by `w * w` times the grand total.
    proof fn lemma_pooled_total_bound(self, ctx: Seq<Seq<char>>, w: int)
        requires
            w >= 0,
        ensures
            self.pooled_total(ctx, w) <= w * w * grand_total(self.chain@),
        decreases w,
    {
        let g = grand_total(self.chain@) as int;
        if w > 0 {
            self.lemma_pooled_total_bound(ctx, w - 1);
            lemma_lookup_le_total(self.chain@, ctx.skip(ctx.len() - w));
            match self.links_of(ctx.skip(ctx.len() - w)) {
                Option::None => {
                    assert(self.width_total(ctx, w) == 0);
                },
                Option::Some(ls) => {
                    assert(w * total_of(ls) <= w * g) by (nonlinear_arith)
                        requires
                            w >= 1,
                            0 <= total_of(ls) <= g,
                    ;
                },
            }
            assert(self.width_total(ctx, w) <= w * g);
            assert((w - 1) * (w - 1) * g + w * g <= w * w * g) by (nonlinear_arith)
                requires
                    w >= 1,
                    g >= 0,
            ;
        }
    }

    /// A word drawn from the pool stands in the chain.
    proof fn lemma_pooled_weight_source(self, ctx: Seq<Seq<char>>, t: TokenModel, w: int)
        requires
            self.wf(),
        ensures
            self.pooled_weight(ctx, t, w) > 0 ==> token_shaped(t),
            forall|u: Seq<char>|
                self.pooled_weight(ctx, t, w) > 0 && t == TokenModel::Word(u)
                    ==> self.word_in_chain(u),
        decreases w,
    {
        if w > 0 {
            self.lemma_pooled_weight_source(ctx, t, w - 1);
            if self.width_weight(ctx, t, w) > 0 {
                let c = ctx.skip(ctx.len() - w);
                let ls = self.links_of(c)->Some_0;
                lemma_lookup_index(self.chain@, c);
                assert(!(lookup_links(self.chain@, c) is None));
                let i = choose|i: int|
                    0 <= i < self.chain@.len() && (#[trigger] self.chain@[i]).0.deep_view() == c;
                assert(lookup_links(self.chain@, c) == Some(self.chain@[i].1@));
                crate::link::lemma_token_count_exists(self.chain@[i].1@, t);
                assert(token_count(ls, t) > 0) by (nonlinear_arith)
                    requires
                        (w * token_count(ls, t)) as nat > 0,
                        w >= 1,
                ;
                let k = choose|k: int|
                    0 <= k < self.chain@[i].1@.len() && (#[trigger] self.chain@[i].1@[k]).token
                        == t;
                assert(token_shaped(self.chain@[i].1@[k].token));
                if t is Word {
                    assert(self.word_in_chain(t->Word_0));
                }
            }
        }
    }
}

proof fn lemma_links_take_snoc(s: Seq<LinkModel>, k: int)
    requires
        0 <= k < s.len(),
    ensures
        forall|t: TokenModel|
            #[trigger] token_count(s.take(k + 1), t) == token_count(s.take(k), t) + (if s[k].token
                == t {
                s[k].count
            } else {
                0nat
            }),
        total_of(s.take(k + 1)) == total_of(s.take(k)) + s[k].count,
{
    assert(s.take(k + 1) =~= s.take(k).insert(k, s[k]));
    assert forall|t: TokenModel|
        #[trigger] token_count(s.take(k + 1), t) == token_count(s.take(k), t) + (if s[k].token
            == t {
            s[k].count
        } else {
            0nat
        }) by {
        crate::link::lemma_token_count_insert_pub(s.take(k), t, k, s[k]);
    }
    crate::link::lemma_token_count_insert_pub(s.take(k), s[k].token, k, s[k]);
}

/// The cumulative weight of the first `i` links.
pub open spec fn prefix_total(s: Seq<LinkModel>, i: int) -> nat {
    total_of(s.take(i))
}

/// Picks the unique link whose cumulative-count band holds `r`: the
/// result index `ix` satisfies `prefix_total(ix) <= r < prefix_total(ix)
/// + count(ix)`, so each link is selected for exactly `count` of the
/// `total` possible draws.
pub fn pick_weighted(links: &Vec<Link>, r: usize) -> (ix: usize)
    requires
        r < total_of(links_view(links@)),
        total_of(links_view(links@)) <= usize::MAX,
    ensures
        ix < links@.len(),
        prefix_total(links_view(links@), ix as int) <= r < prefix_total(links_view(links@), ix as int)
            + links_view(links@)[ix as int].count,
{
    let ghost s = links_view(links@);
    proof {
        assert(s.len() == links@.len());
        assert(total_of(s.take(s.len() as int)) == total_of(s)) by {
            assert(s.take(s.len() as int) =~= s);
        }
        assert(total_of(s.take(0)) == 0) by {
            assert(s.take(0) =~= Seq::<LinkModel>::empty());
        }
    }
    let n = links.len();
    let mut acc: usize = 0;
    let mut i: usize = 0;
    while i < n
        invariant
            i <= n,
            n == s.len(),
            s == links_view(links@),
            r < total_of(s),
            total_of(s) <= usize::MAX,
            total_of(s.take(s.len() as int)) == total_of(s),
            acc == total_of(s.take(i as int)),
            acc <= r,
        decreases n - i,
    {
        proof {
            lemma_links_take_snoc(s, i as int);
            assert(s[i as int] == links@[i as int]@);
            crate::link::lemma_total_take_le(s, i as int + 1);
        }
        let c = links[i].count;
        if r < acc + c {
            return i;
        }
        acc = acc + c;
        i = i + 1;
    }
    proof {
        assert(false);
    }
    0
}

/// Two distinct links own disjoint selection bands: no draw value `r`
/// selects both.  Together with [`pick_weighted`]'s contract this pins
/// the selection exactly: link `i` is drawn if and only if `r` lies in
/// its band of `count(i)` values, so under a uniform draw from
/// `[0, total)` its probability is exactly `count(i) / total`.
pub proof fn lemma_weighted_fairness(s: Seq<LinkModel>, i: int, j: int, r: int)
    requires
        0 <= i < j < s.len(),
    ensures
        !(prefix_total(s, i) <= r < prefix_total(s, i) + s[i].count && prefix_total(s, j) <= r
            < prefix_total(s, j) + s[j].count),
    decreases j - i,
{
    lemma_links_take_snoc(s, i);
    assert(prefix_total(s, i) + s[i].count == prefix_total(s, i + 1));
    if i + 1 < j {
        lemma_prefix_mono(s, i + 1, j);
    }
}

proof fn lemma_prefix_mono(s: Seq<LinkModel>, i: int, j: int)
    requires
        0 <= i <= j <= s.len(),
    ensures
        prefix_total(s, i) <= prefix_total(s, j),
    decreases j - i,
{
    if i < j {
        lemma_prefix_mono(s, i, j - 1);
        lemma_links_take_snoc(s, j - 1);
    }
}

impl Markov {
    /// Builds the width-weighted pool of successor links for `context`.
    #[verifier::loop_isolation(false)]
    #[verifier::rlimit(100)]
    fn pool_links(&self, context: &Vec<String>) -> (pooled: Vec<Link>)
        requires
            self.wf(),
            1 <= context.deep_view().len() < usize::MAX,
            self.pooled_total(
                context.deep_view(),
                vstd::math::min(self.spec_depth(), context.deep_view().len() as int),
            ) <= usize::MAX,
        ensures
            forall|t: TokenModel|
                #[trigger] token_count(links_view(pooled@), t) == self.pooled_weight(
                    context.deep_view(),
                    t,
                    vstd::math::min(self.spec_depth(), context.deep_view().len() as int),
                ),
            total_of(links_view(pooled@)) == self.pooled_total(
                context.deep_view(),
                vstd::math::min(self.spec_depth(), context.deep_view().len() as int),
            ),
    {
        let ghost ctxv = context.deep_view();
        let len = context.len();
        let d: usize = if self.depth < len {
            self.depth
        } else {
            len
        };
        proof {
            assert(d == vstd::math::min(self.spec_depth(), ctxv.len() as int));
            assert(d < usize::MAX);
        }
        let mut pooled: Vec<Link> = Vec::new();
        proof {
            assert(links_view(pooled@) =~= Seq::<LinkModel>::empty());
        }
        let mut w: usize = 1;
        while w <= d
            invariant
                1 <= w <= d + 1,
                forall|t: TokenModel|
                    #[trigger] token_count(links_view(pooled@), t) == self.pooled_weight(
                        ctxv,
                        t,
                        w - 1,
                    ),
                total_of(links_view(pooled@)) == self.pooled_total(ctxv, w - 1),
            decreases d + 1 - w,
        {
            let sub = subvec(context, len - w, len);
            proof {
                assert(sub.deep_view() =~= ctxv.skip(ctxv.len() - w));
                lemma_pooled_mono(*self, ctxv, w as int, d as int);
            }
            match self.find_entry(&sub) {
                Option::None => {
                    proof {
                        assert(self.width_weight(ctxv, TokenModel::End, w as int) == 0);
                        assert forall|t: TokenModel|
                            #[trigger] token_count(links_view(pooled@), t) == self.pooled_weight(
                                ctxv,
                                t,
                                w as int,
                            ) by {
                            assert(self.width_weight(ctxv, t, w as int) == 0);
                        }
                        assert(self.width_total(ctxv, w as int) == 0);
                    }
                },
                Option::Some(e) => {
                    let ls = &self.chain[e].1;
                    proof {
                        assert(self.links_of(ctxv.skip(ctxv.len() - w)) == Some(ls@));
                    }
                    let m = ls.len();
                    let mut k: usize = 0;
                    proof {
                        assert(ls@.take(0) =~= Seq::<LinkModel>::empty());
                        assert(forall|t: TokenModel|
                            token_count(Seq::<LinkModel>::empty(), t) == 0);
                        assert(total_of(Seq::<LinkModel>::empty()) == 0);
                    }
                    while k < m
                        invariant
                            k <= m,
                            m == ls@.len(),
                            forall|t: TokenModel|
                                #[trigger] token_count(links_view(pooled@), t)
                                    == self.pooled_weight(ctxv, t, w - 1) + w * token_count(
                                    ls@.take(k as int),
                                    t,
                                ),
                            total_of(links_view(pooled@)) == self.pooled_total(ctxv, w - 1) + w
                                * total_of(ls@.take(k as int)),
                        decreases m - k,
                    {
                        let l = ls.get(k);
                        proof {
                            lemma_links_take_snoc(ls@, k as int);
                            crate::link::lemma_total_take_le(ls@, k as int + 1);
                            // The new pooled total stays within the final pooled
                            // total, which the caller bounded by usize::MAX.
                            assert(self.pooled_total(ctxv, w - 1) + w * total_of(
                                ls@.take(k as int + 1),
                            ) <= self.pooled_total(ctxv, w as int)) by (nonlinear_arith)
                                requires
                                    w >= 1,
                                    total_of(ls@.take(k as int + 1)) <= total_of(ls@),
                                    self.width_total(ctxv, w as int) == (w * total_of(ls@)) as nat,
                                    self.pooled_total(ctxv, w as int) == self.pooled_total(
                                        ctxv,
                                        w - 1,
                                    ) + self.width_total(ctxv, w as int),
                            ;
                            assert(w * total_of(ls@.take(k as int)) + w * l@.count == w * total_of(
                                ls@.take(k as int + 1),
                            )) by (nonlinear_arith)
                                requires
                                    total_of(ls@.take(k as int + 1)) == total_of(ls@.take(k as int))
                                        + l@.count,
                            ;
                        }
                        proof {
                            assert(total_of(links_view(pooled@)) + w * l@.count
                                <= self.pooled_total(ctxv, w as int)) by (nonlinear_arith)
                                requires
                                    total_of(links_view(pooled@)) == self.pooled_total(ctxv, w - 1)
                                        + w * total_of(ls@.take(k as int)),
                                    w * total_of(ls@.take(k as int)) + w * l@.count == w
                                        * total_of(ls@.take(k as int + 1)),
                                    self.pooled_total(ctxv, w - 1) + w * total_of(
                                        ls@.take(k as int + 1),
                                    ) <= self.pooled_total(ctxv, w as int),
                            ;
                            assert(self.pooled_total(ctxv, w as int) <= usize::MAX);
                            assert(w * l@.count <= usize::MAX);
                        }
                        let c = w * l.count;
                        let ghost pooled0 = links_view(pooled@);
                        match find_token(&pooled, &l.token) {
                            Option::Some(j) => {
                                let entry = &mut pooled[j];
                                proof {
                                    crate::link::lemma_counts_le_total(pooled0);
                                    assert(pooled0[j as int].count + c <= total_of(pooled0) + c);
                                    assert(total_of(pooled0) + c <= usize::MAX);
                                }
                                entry.count = entry.count + c;
                                proof {
                                    assert(links_view(pooled@) =~= pooled0.update(
                                        j as int,
                                        LinkModel {
                                            token: pooled0[j as int].token,
                                            count: (pooled0[j as int].count + c) as nat,
                                        },
                                    ));
                                    crate::link::lemma_token_count_update_pub(
                                        pooled0,
                                        j as int,
                                        (c as nat),
                                    );
                                }
                            },
                            Option::None => {
                                pooled.push(Link { token: l.token.duplicate(), count: c });
                                proof {
                                    assert(links_view(pooled@) =~= pooled0.push(
                                        LinkModel { token: l@.token, count: c as nat },
                                    ));
                                    assert(pooled0.push(
                                        LinkModel { token: l@.token, count: c as nat },
                                    ) =~= pooled0.insert(
                                        pooled0.len() as int,
                                        LinkModel { token: l@.token, count: c as nat },
                                    ));
                                    crate::link::lemma_token_count_insert_pub(
                                        pooled0,
                                        l@.token,
                                        pooled0.len() as int,
                                        LinkModel { token: l@.token, count: c as nat },
                                    );
                                    assert forall|t: TokenModel|
                                        #[trigger] token_count(links_view(pooled@), t)
                                            == token_count(pooled0, t) + (if t == l@.token {
                                            c as nat
                                        } else {
                                            0nat
                                        }) by {
                                        assert(pooled0.push(
                                            LinkModel { token: l@.token, count: c as nat },
                                        ) =~= pooled0.insert(
                                            pooled0.len() as int,
                                            LinkModel { token: l@.token, count: c as nat },
                                        ));
                                        crate::link::lemma_token_count_insert_pub(
                                            pooled0,
                                            t,
                                            pooled0.len() as int,
                                            LinkModel { token: l@.token, count: c as nat },
                                        );
                                    }
                                }
                            },
                        }
                        proof {
                            assert(total_of(links_view(pooled@)) == total_of(pooled0) + c);
                            assert forall|t: TokenModel|
                                #[trigger] token_count(links_view(pooled@), t)
                                    == self.pooled_weight(ctxv, t, w - 1) + w * token_count(
                                    ls@.take(k as int + 1),
                                    t,
                                ) by {
                                if t == l@.token {
                                    assert(w * token_count(ls@.take(k as int), t) + w * l@.count
                                        == w * token_count(ls@.take(k as int + 1), t))
                                        by (nonlinear_arith)
                                        requires
                                            token_count(ls@.take(k as int + 1), t) == token_count(
                                                ls@.take(k as int),
                                                t,
                                            ) + l@.count,
                                    ;
                                } else {
                                    assert(token_count(ls@.take(k as int + 1), t) == token_count(
                                        ls@.take(k as int),
                                        t,
                                    ));
                                }
                            }
                        }
                        k = k + 1;
                    }
                    proof {
                        assert(ls@.take(m as int) =~= ls@);
                        assert forall|t: TokenModel|
                            #[trigger] token_count(links_view(pooled@), t) == self.pooled_weight(
                                ctxv,
                                t,
                                w as int,
                            ) by {
                            assert(self.width_weight(ctxv, t, w as int) == (w * token_count(
                                ls@,
                                t,
                            )) as nat);
                        }
                    }
                },
            }
            w = w + 1;
        }
        pooled
    }
}

/// The index of the link carrying `token` in a plain link list.
fn find_token(links: &Vec<Link>, token: &Token) -> (r: Option<usize>)
    ensures
        match r {
            Some(j) => j < links@.len() && links_view(links@)[j as int].token == token@,
            None => forall|j: int|
                0 <= j < links@.len() ==> (#[trigger] links_view(links@)[j]).token != token@,
        },
{
    let n = links.len();
    let mut j: usize = 0;
    while j < n
        invariant
            j <= n,
            n == links@.len(),
            forall|q: int| 0 <= q < j ==> (#[trigger] links_view(links@)[q]).token != token@,
        decreases n - j,
    {
        if links[j].token.is(token) {
            proof {
                assert(links_view(links@)[j as int] == links@[j as int]@);
            }
            return Some(j);
        }
        proof {
            assert(links_view(links@)[j as int] == links@[j as int]@);
        }
        j = j + 1;
    }
    None
}

/// The sum of the counts in a link list.
fn sum_counts(links: &Vec<Link>) -> (r: usize)
    requires
        total_of(links_view(links@)) <= usize::MAX,
    ensures
        r == total_of(links_view(links@)),
{
    let ghost s = links_view(links@);
    let n = links.len();
    let mut acc: usize = 0;
    let mut i: usize = 0;
    proof {
        assert(s.take(0) =~= Seq::<LinkModel>::empty());
    }
    while i < n
        invariant
            i <= n,
            n == s.len(),
            s == links_view(links@),
            total_of(s) <= usize::MAX,
            acc == total_of(s.take(i as int)),
        decreases n - i,
    {
        proof {
            lemma_links_take_snoc(s, i as int);
            crate::link::lemma_total_take_le(s, i as int + 1);
            assert(s[i as int] == links@[i as int]@);
        }
        acc = acc + links[i].count;
        i = i + 1;
    }
    proof {
        assert(s.take(n as int) =~= s);
    }
    acc
}

proof fn lemma_pooled_mono(m: Markov, ctx: Seq<Seq<char>>, w1: int, w2: int)
    requires
        0 <= w1 <= w2,
    ensures
        m.pooled_total(ctx, w1) <= m.pooled_total(ctx, w2),
    decreases w2,
{
    if w1 < w2 {
        lemma_pooled_mono(m, ctx, w1, w2 - 1);
    }
}


proof fn lemma_token_count_lower(s: Seq<LinkModel>, ix: int)
    requires
        0 <= ix < s.len(),
    ensures
        token_count(s, s[ix].token) >= s[ix].count,
    decreases ix,
{
    if ix > 0 {
        lemma_token_count_lower(s.drop_first(), ix - 1);
        assert(s.drop_first()[ix - 1] == s[ix]);
    }
}

/// Draws one link with probability proportional to its count: the draw
/// lands in exactly one link's cumulative-count band.
pub fn weighted_selection(rng: &mut rand::rngs::StdRng, links: &Vec<Link>) -> (l: Link)
    requires
        1 <= total_of(links_view(links@)) <= usize::MAX,
    ensures
        exists|ix: int|
            0 <= ix < links@.len() && l@ == links_view(links@)[ix] && (
            #[trigger] links_view(links@)[ix]).count > 0,
{
    let total = sum_counts(links);
    let r = random_below(rng, total);
    let ix = pick_weighted(links, r);
    proof {
        lemma_links_take_snoc(links_view(links@), ix as int);
        assert(links_view(links@)[ix as int].count > 0);
        assert(links@[ix as int]@ == links_view(links@)[ix as int]);
    }
    links[ix].duplicate()
}

impl Markov {
    /// Samples the next token after `context`: pools the stored links of
    /// every trailing context width, weighting width `w` links `w`-fold,
    /// and draws one in proportion to its pooled weight.  The returned
    /// token always has positive pooled weight for this context.
    pub fn next_word(&self, rng: &mut rand::rngs::StdRng, context: &Vec<String>) -> (t: Token)
        requires
            self.wf(),
            1 <= context.deep_view().len() < usize::MAX,
            self.has_context(context.deep_view().skip(context.deep_view().len() - 1)),
            self.spec_depth() * self.spec_depth() * self.total() <= usize::MAX,
        ensures
            self.pooled_weight(
                context.deep_view(),
                t@,
                vstd::math::min(self.spec_depth(), context.deep_view().len() as int),
            ) > 0,
            token_shaped(t@),
            forall|u: Seq<char>| t@ == TokenModel::Word(u) ==> self.word_in_chain(u),
    {
        let ghost ctxv = context.deep_view();
        let ghost d = vstd::math::min(self.spec_depth(), ctxv.len() as int);
        proof {
            self.lemma_pooled_total_bound(ctxv, d);
            let g = grand_total(self.chain@) as int;
            assert(d * d * g <= self.spec_depth() * self.spec_depth() * g) by (nonlinear_arith)
                requires
                    0 <= d <= self.spec_depth(),
                    g >= 0,
            ;
            // The width-one pool is never empty: the one-word context of
            // the trailing word is stored and its links all count.
            let c1 = ctxv.skip(ctxv.len() - 1);
            lemma_lookup_index(self.chain@, c1);
            assert(!(lookup_links(self.chain@, c1) is None));
            let i = choose|i: int|
                0 <= i < self.chain@.len() && (#[trigger] self.chain@[i]).0.deep_view() == c1;
            assert(lookup_links(self.chain@, c1) == Some(self.chain@[i].1@));
            lemma_len_le_total(self.chain@[i].1@);
            assert(self.width_total(ctxv, 1) >= 1);
            lemma_pooled_mono(*self, ctxv, 1, d);
            assert(self.pooled_total(ctxv, 1) >= 1);
        }
        let pooled = self.pool_links(context);
        let l = weighted_selection(rng, &pooled);
        proof {
            let pv = links_view(pooled@);
            let ix = choose|ix: int| 0 <= ix < pooled@.len() && l@ == pv[ix] && (#[trigger] pv[ix]).count > 0;
            lemma_token_count_lower(pv, ix);
            assert(self.pooled_weight(ctxv, l@.token, d) >= pv[ix].count);
            self.lemma_pooled_weight_source(ctxv, l@.token, d);
        }
        l.token
    }

    /// Whether generation may run: at least one entry point is trained
    /// and every entry point and every stored successor word has its own
    /// one-word context, so the sampling loop always finds links.
    pub fn can_generate(&self) -> (r: bool)
        requires
            self.wf(),
        ensures
            r == (self.supported() && self.entry_points_view().len() >= 1),
    {
        if self.entry_points.len() == 0 {
            return false;
        }
        // Every entry point has its one-word context.
        let ne = self.entry_points.len();
        let mut e: usize = 0;
        while e < ne
            invariant
                e <= ne,
                ne == self.entry_points@.len(),
                self.wf(),
                forall|q: int|
                    0 <= q < e ==> self.has_context(
                        seq![#[trigger] self.entry_points_view()[q]],
                    ),
            decreases ne - e,
        {
            let mut one: Vec<String> = Vec::new();
            one.push(self.entry_points[e].clone());
            proof {
                assert(one.deep_view() =~= seq![self.entry_points_view()[e as int]]);
            }
            if self.find_entry(&one).is_none() {
                proof {
                    assert(!self.has_context(seq![self.entry_points_view()[e as int]]));
                    assert(!self.supported());
                }
                return false;
            }
            e = e + 1;
        }
        // Every stored successor word has its one-word context.
        let na = self.chain.len();
        let mut a: usize = 0;
        while a < na
            invariant
                a <= na,
                na == self.chain@.len(),
                self.wf(),
                forall|q: int|
                    0 <= q < e ==> self.has_context(
                        seq![#[trigger] self.entry_points_view()[q]],
                    ),
                e == self.entry_points@.len(),
                forall|b: int, k: int|
                    0 <= b < a && 0 <= k < self.chain@[b].1@.len() ==> token_ok(
                        *self,
                        (#[trigger] self.chain@[b].1@[k]).token,
                    ),
            decreases na - a,
        {
            let m = self.chain[a].1.len();
            let mut k: usize = 0;
            while k < m
                invariant
                    k <= m,
                    a < na,
                    na == self.chain@.len(),
                    m == self.chain@[a as int].1@.len(),
                    self.wf(),
                    forall|j: int|
                        0 <= j < k ==> token_ok(
                            *self,
                            (#[trigger] self.chain@[a as int].1@[j]).token,
                        ),
                decreases m - k,
            {
                let found = match &self.chain[a].1.get(k).token {
                    Token::End => true,
                    Token::Word(u) => {
                        let mut one: Vec<String> = Vec::new();
                        one.push(u.clone());
                        proof {
                            assert(one.deep_view() =~= seq![u@]);
                        }
                        self.find_entry(&one).is_some()
                    },
                };
                if !found {
                    proof {
                        let t = self.chain@[a as int].1@[k as int].token;
                        assert(t is Word);
                        let u = t->Word_0;
                        assert(self.chain@[a as int].1@[k as int].token == TokenModel::Word(u));
                        assert(self.word_in_chain(u));
                        assert(!self.has_context(seq![u]));
                        assert(!self.supported());
                    }
                    return false;
                }
                proof {
                    assert(token_ok(*self, self.chain@[a as int].1@[k as int].token));
                }
                k = k + 1;
            }
            a = a + 1;
        }
        proof {
            assert forall|w: Seq<char>| #[trigger] self.word_in_chain(w) implies self.has_context(
                seq![w],
            ) by {
                let (b, k) = choose|b: int, k: int|
                    0 <= b < self.chain@.len() && 0 <= k < self.chain@[b].1@.len() && (
                    #[trigger] self.chain@[b].1@[k]).token == TokenModel::Word(w);
                assert(token_ok(*self, self.chain@[b].1@[k].token));
            }
        }
        true
    }

    /// Generates one sentence: seeds it with a uniformly drawn entry
    /// point, then repeatedly samples the next token from the pooled
    /// trailing contexts until the end marker is drawn (or the defensive
    /// length bound is reached), and renders the words separated by
    /// single spaces with a closing period.
    #[verifier::loop_isolation(false)]
    pub fn generate_sentence(&self, rng: &mut rand::rngs::StdRng) -> (r: String)
        requires
            self.wf(),
            self.supported(),
            self.entry_points_view().len() >= 1,
            self.spec_depth() * self.spec_depth() * self.total() <= usize::MAX,
        ensures
            exists|ws: Seq<Seq<char>>|
                #![auto]
                ws.len() >= 1 && (forall|i: int| 0 <= i < ws.len() ==> word_shaped(ws[i]))
                    && self.entry_points_view().contains(ws[0]) && (forall|i: int|
                    1 <= i < ws.len() ==> self.word_in_chain(ws[i])) && (forall|i: int|
                    1 <= i < ws.len() ==> self.pooled_weight(
                        ws.subrange(window_start(i, self.spec_depth()), i),
                        TokenModel::Word(ws[i]),
                        vstd::math::min(self.spec_depth(), i),
                    ) > 0) && r@ == spec_render(ws),
    {
        let e = random_below(rng, self.entry_points.len());
        let mut words: Vec<String> = Vec::new();
        words.push(self.entry_points[e].clone());
        proof {
            assert(words.deep_view() =~= seq![self.entry_points_view()[e as int]]);
            assert(self.entry_points_view().contains(words.deep_view()[0]));
        }
        let mut steps: usize = 0;
        while steps < MAX_GENERATED_WORDS
            invariant
                1 <= words.deep_view().len() <= steps + 1,
                steps <= MAX_GENERATED_WORDS,
                forall|i: int| 0 <= i < words.deep_view().len() ==> word_shaped(
                    #[trigger] words.deep_view()[i],
                ),
                self.entry_points_view().contains(words.deep_view()[0]),
                forall|i: int|
                    1 <= i < words.deep_view().len() ==> self.word_in_chain(
                        #[trigger] words.deep_view()[i],
                    ),
                forall|i: int|
                    1 <= i < words.deep_view().len() ==> self.pooled_weight(
                        words.deep_view().subrange(window_start(i, self.spec_depth()), i),
                        TokenModel::Word(#[trigger] words.deep_view()[i]),
                        vstd::math::min(self.spec_depth(), i),
                    ) > 0,
                self.has_context(
                    seq![words.deep_view()[words.deep_view().len() - 1]],
                ),
            decreases MAX_GENERATED_WORDS - steps,
        {
            let ghost ws0 = words.deep_view();
            let len = words.len();
            let start: usize = if self.depth < len {
                len - self.depth
            } else {
                0
            };
            let ctx = subvec(&words, start, len);
            proof {
                let ctxv = ctx.deep_view();
                assert(ctxv == ws0.subrange(start as int, len as int));
                assert(ctxv.len() >= 1);
                assert(ctxv.skip(ctxv.len() - 1) =~= seq![ws0[len - 1]]);
            }
            let t = self.next_word(rng, &ctx);
            match t {
                Token::End => {
                    return render_sentence(&words);
                },
                Token::Word(u) => {
                    proof {
                        assert(t@ == TokenModel::Word(u@));
                        assert(self.word_in_chain(u@));
                        assert(word_shaped(u@));
                        assert(self.has_context(seq![u@]));
                    }
                    words.push(u);
                    proof {
                        assert(words.deep_view() =~= ws0.push(u@));
                        let ws1 = words.deep_view();
                        assert forall|i: int|
                            1 <= i < ws1.len() implies self.pooled_weight(
                            ws1.subrange(window_start(i, self.spec_depth()), i),
                            TokenModel::Word(ws1[i]),
                            vstd::math::min(self.spec_depth(), i),
                        ) > 0 by {
                            assert(ws1.subrange(window_start(i, self.spec_depth()), i)
                                =~= ws0.subrange(window_start(i, self.spec_depth()), i));
                            if i == ws0.len() {
                                assert(ws0.subrange(window_start(i, self.spec_depth()), i)
                                    == ctx.deep_view());
                                assert(ws1[i] == u@);
                            }
                        }
                    }
                },
            }
            steps = steps + 1;
        }
        render_sentence(&words)
    }
}

/// Where the trailing context of width at most `depth` starts before
/// the word at position `i`.
pub open spec fn window_start(i: int, depth: int) -> int {
    if i > depth {
        i - depth
    } else {
        0
    }
}

/// Whether a stored token's word, if any, has its one-word context.
pub open spec fn token_ok(m: Markov, t: TokenModel) -> bool {
    match t {
        TokenModel::Word(u) => m.has_context(seq![u]),
        TokenModel::End => true,
    }
}


/// Entry-point coverage: after training a list of sentences, the first
/// word of every non-empty sentence stands in the entry points, no word
/// stands twice, and the words already registered keep their places, so
/// first-occurrence order is preserved.
pub proof fn lemma_entry_points_coverage(eps: Seq<Seq<char>>, ss: Seq<Seq<char>>)
    requires
        forall|e: int, f: int| 0 <= e < f < eps.len() ==> eps[e] != eps[f],
    ensures
        forall|i: int|
            0 <= i < ss.len() && spec_words(#[trigger] ss[i]).len() > 0 ==> push_entries(
                eps,
                ss,
            ).contains(spec_words(ss[i])[0]),
        forall|e: int, f: int|
            0 <= e < f < push_entries(eps, ss).len() ==> push_entries(eps, ss)[e] != push_entries(
                eps,
                ss,
            )[f],
        forall|e: int| 0 <= e < eps.len() ==> push_entries(eps, ss)[e] == eps[e],
        eps.len() <= push_entries(eps, ss).len(),
    decreases ss.len(),
{
    if ss.len() > 0 {
        let eps1 = push_entry(eps, ss[0]);
        let d = ss.drop_first();
        assert(forall|i: int| 0 <= i < d.len() ==> #[trigger] d[i] == ss[i + 1]);
        assert forall|e: int, f: int| 0 <= e < f < eps1.len() implies eps1[e] != eps1[f] by {
            if f == eps.len() {
                assert(!eps.contains(eps1[f]));
                assert(eps1[e] == eps[e]);
            }
        }
        lemma_entry_points_coverage(eps1, d);
        assert(push_entries(eps, ss) == push_entries(eps1, d));
        assert forall|e: int| 0 <= e < eps.len() implies push_entries(eps, ss)[e] == eps[e] by {
            assert(push_entries(eps1, d)[e] == eps1[e]);
            assert(eps1[e] == eps[e]);
        }
        assert forall|i: int|
            0 <= i < ss.len() && spec_words(#[trigger] ss[i]).len() > 0 implies push_entries(
            eps,
            ss,
        ).contains(spec_words(ss[i])[0]) by {
            if i == 0 {
                let w0 = spec_words(ss[0])[0];
                if eps.contains(w0) {
                    let e = choose|e: int| 0 <= e < eps.len() && eps[e] == w0;
                    assert(push_entries(eps1, d)[e] == eps1[e]);
                    assert(eps1[e] == eps[e]);
                } else {
                    let e = eps.len() as int;
                    assert(eps1[e] == w0);
                    assert(push_entries(eps1, d)[e] == eps1[e]);
                }
            } else {
                assert(d[i - 1] == ss[i]);
            }
        }
    }
}


proof fn lemma_grand_take_snoc(entries: Seq<ChainEntry>, k: int)
    requires
        0 <= k < entries.len(),
    ensures
        grand_total(entries.take(k + 1)) == grand_total(entries.take(k)) + total_of(
            entries[k].1@,
        ),
    decreases k,
{
    if k == 0 {
        assert(entries.take(1)[0] == entries[0]);
        assert(entries.take(1).drop_first() =~= Seq::<ChainEntry>::empty());
        assert(entries.take(0) =~= Seq::<ChainEntry>::empty());
    } else {
        let d = entries.drop_first();
        assert(forall|i: int| 0 <= i < d.len() ==> #[trigger] d[i] == entries[i + 1]);
        lemma_grand_take_snoc(d, k - 1);
        assert(entries.take(k + 1)[0] == entries[0]);
        assert(entries.take(k + 1).drop_first() =~= d.take(k));
        assert(entries.take(k)[0] == entries[0]);
        assert(entries.take(k).drop_first() =~= d.take(k - 1));
        assert(d[k - 1] == entries[k]);
    }
}

proof fn lemma_grand_take_le(entries: Seq<ChainEntry>, k: int)
    requires
        0 <= k <= entries.len(),
    ensures
        grand_total(entries.take(k)) <= grand_total(entries),
    decreases entries.len(),
{
    if k == 0 {
        assert(entries.take(0) =~= Seq::<ChainEntry>::empty());
    } else {
        let d = entries.drop_first();
        lemma_grand_take_le(d, k - 1);
        assert(entries.take(k)[0] == entries[0]);
        assert(entries.take(k).drop_first() =~= d.take(k - 1));
    }
}

impl Markov {
    /// The sum of every stored occurrence count: how many link
    /// occurrences training has recorded in all.
    pub fn total_count(&self) -> (r: usize)
        requires
            self.wf(),
        ensures
            r == self.total(),
    {
        let ghost entries = self.chain@;
        let n = self.chain.len();
        let mut acc: usize = 0;
        let mut k: usize = 0;
        proof {
            assert(entries.take(0) =~= Seq::<ChainEntry>::empty());
        }
        while k < n
            invariant
                k <= n,
                n == entries.len(),
                entries == self.chain@,
                self.wf(),
                acc == grand_total(entries.take(k as int)),
            decreases n - k,
        {
            proof {
                lemma_grand_take_snoc(entries, k as int);
                lemma_grand_take_le(entries, k as int + 1);
            }
            let ls = &self.chain[k].1;
            proof {
                crate::link::lemma_counts_le_total(ls@);
            }
            let m = ls.len();
            let ghost lsv = ls@;
            let mut j: usize = 0;
            let mut sub: usize = 0;
            proof {
                assert(lsv.take(0) =~= Seq::<LinkModel>::empty());
            }
            while j < m
                invariant
                    j <= m,
                    m == lsv.len(),
                    lsv == ls@,
                    total_of(lsv) <= usize::MAX,
                    sub == total_of(lsv.take(j as int)),
                decreases m - j,
            {
                proof {
                    lemma_links_take_snoc(lsv, j as int);
                    crate::link::lemma_total_take_le(lsv, j as int + 1);
                }
                sub = sub + ls.get(j).count;
                j = j + 1;
            }
            proof {
                assert(lsv.take(m as int) =~= lsv);
            }
            acc = acc + sub;
            k = k + 1;
        }
        proof {
            assert(entries.take(n as int) =~= entries);
        }
        acc
    }
}

} // verus!