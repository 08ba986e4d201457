//! Tokens, weighted links and the sorted link collection kept per context.

use vstd::prelude::*;

verus! {

/// A successor candidate: either a concrete word or the end of a sentence.
pub enum Token {
    Word(String),
    End,
}

/// Mathematical image of a [`Token`]: the word as a character sequence.
pub enum TokenModel {
    Word(Seq<char>),
    End,
}

impl View for Token {
    type V = TokenModel;

    open spec fn view(&self) -> TokenModel {
        match self {
            Token::Word(w) => TokenModel::Word(w@),
            Token::End => TokenModel::End,
        }
    }
}

impl Token {
    /// Structural equality of tokens: same variant, and for words the same text.
    pub fn is(&self, other: &Token) -> (r: bool)
        ensures
            r == (self@ == other@),
    {
        match (self, other) {
            (Token::Word(a), Token::Word(b)) => *a == *b,
            (Token::End, Token::End) => true,
            _ => false,
        }
    }

    /// A token equal to this one.
    pub fn duplicate(&self) -> (r: Token)
        ensures
            r@ == self@,
    {
        match self {
            Token::Word(w) => Token::Word(w.clone()),
            Token::End => Token::End,
        }
    }
}

/// A successor token together with how many times it followed its context.
pub struct Link {
    pub token: Token,
    pub count: usize,
}

/// Mathematical image of a [`Link`].
pub struct LinkModel {
    pub token: TokenModel,
    pub count: nat,
}

impl View for Link {
    type V = LinkModel;

    open spec fn view(&self) -> LinkModel {
        LinkModel { token: self.token@, count: self.count as nat }
    }
}

impl Link {
    /// A fresh link recording the first occurrence of `token`.
    pub fn of(token: Token) -> (r: Link)
        ensures
            r@.token == token@,
            r@.count == 1,
    {
        Link { token, count: 1 }
    }

    /// Folds another occurrence record for the same token into this link.
    pub fn merge(&mut self, rhs: Link)
        requires
            old(self)@.token == rhs@.token,
            old(self).count + rhs.count <= usize::MAX,
        ensures
            final(self)@.token == old(self)@.token,
            final(self).count == old(self).count + rhs.count,
    {
        self.count = self.count + rhs.count;
    }

    /// A link equal to this one.
    pub fn duplicate(&self) -> (r: Link)
        ensures
            r@ == self@,
    {
        Link { token: self.token.duplicate(), count: self.count }
    }
}

/// How many occurrences of token `t` a link sequence records.
pub open spec fn token_count(s: Seq<LinkModel>, t: TokenModel) -> nat
    decreases s.len(),
{
    if s.len() == 0 {
        0
    } else {
        (if s[0].token == t {
            s[0].count
        } else {
            0
        }) + token_count(s.drop_first(), t)
    }
}

/// The sum of all counts in a link sequence.
pub open spec fn total_of(s: Seq<LinkModel>) -> nat
    decreases s.len(),
{
    if s.len() == 0 {
        0
    } else {
        s[0].count + total_of(s.drop_first())
    }
}

/// Well-formedness of a link sequence: positive counts, sorted by count
/// descending, and no two links with equal tokens.
pub open spec fn links_wf(s: Seq<LinkModel>) -> bool {
    &&& forall|i: int| 0 <= i < s.len() ==> (#[trigger] s[i]).count >= 1
    &&& forall|i: int, j: int| 0 <= i < j < s.len() ==> (#[trigger] s[i]).count >= (#[trigger] s[j]).count
    &&& forall|i: int, j: int| 0 <= i < j < s.len() ==> (#[trigger] s[i]).token != (#[trigger] s[j]).token
}

/// The links recorded for one context, kept sorted by count descending.
pub struct LinkSet {
    links: Vec<Link>,
}

impl View for LinkSet {
    type V = Seq<LinkModel>;

    closed spec fn view(&self) -> Seq<LinkModel> {
        self.links@.map_values(|l: Link| l@)
    }
}

proof fn lemma_token_count_drop(s: Seq<LinkModel>, t: TokenModel, k: int)
    requires
        0 <= k <= s.len(),
        forall|i: int| 0 <= i < k ==> (#[trigger] s[i]).token != t,
    ensures
        token_count(s, t) == token_count(s.skip(k), t),
    decreases k,
{
    if k > 0 {
        assert(s.skip(k - 1).drop_first() =~= s.skip(k));
        assert(s.skip(k - 1)[0] == s[k - 1]);
        lemma_token_count_drop(s, t, k - 1);
    } else {
        assert(s.skip(0) =~= s);
    }
}

/// Removing the link at index `i` lowers the token's tally by that link's count.
proof fn lemma_token_count_remove(s: Seq<LinkModel>, t: TokenModel, i: int)
    requires
        0 <= i < s.len(),
    ensures
        token_count(s, t) == token_count(s.remove(i), t) + (if s[i].token == t {
            s[i].count
        } else {
            0
        }),
        total_of(s) == total_of(s.remove(i)) + s[i].count,
    decreases i,
{
    if i == 0 {
        assert(s.remove(0) =~= s.drop_first());
    } else {
        assert(s.remove(i).drop_first() =~= s.drop_first().remove(i - 1));
        assert(s.remove(i)[0] == s[0]);
        lemma_token_count_remove(s.drop_first(), t, i - 1);
    }
}

/// Inserting a link at index `i` raises the token's tally by that link's count.
proof fn lemma_token_count_insert(s: Seq<LinkModel>, t: TokenModel, i: int, l: LinkModel)
    requires
        0 <= i <= s.len(),
    ensures
        token_count(s.insert(i, l), t) == token_count(s, t) + (if l.token == t {
            l.count
        } else {
            0
        }),
        total_of(s.insert(i, l)) == total_of(s) + l.count,
    decreases i,
{
    if i == 0 {
        assert(s.insert(0, l).drop_first() =~= s);
        assert(s.insert(0, l)[0] == l);
    } else {
        assert(s.insert(i, l).drop_first() =~= s.drop_first().insert(i - 1, l));
        assert(s.insert(i, l)[0] == s[0]);
        lemma_token_count_insert(s.drop_first(), t, i - 1, l);
    }
}

/// Every individual count, and every token tally, is at most the set's total.
pub proof fn lemma_counts_le_total(s: Seq<LinkModel>)
    ensures
        forall|i: int| 0 <= i < s.len() ==> (#[trigger] s[i]).count <= total_of(s),
        forall|t: TokenModel| token_count(s, t) <= total_of(s),
    decreases s.len(),
{
    if s.len() > 0 {
        lemma_counts_le_total(s.drop_first());
        assert forall|i: int| 0 <= i < s.len() implies (#[trigger] s[i]).count <= total_of(s) by {
            if i > 0 {
                assert(s.drop_first()[i - 1] == s[i]);
            }
        }
        assert forall|t: TokenModel| token_count(s, t) <= total_of(s) by {
            assert(token_count(s.drop_first(), t) <= total_of(s.drop_first()));
        }
    }
}

/// A token with a positive tally stands somewhere in the sequence, and
/// a token that stands in the sequence has its count as its tally when
/// no other link carries it.
proof fn lemma_token_count_index(s: Seq<LinkModel>, t: TokenModel)
    requires
        forall|i: int| 0 <= i < s.len() ==> (#[trigger] s[i]).count >= 1,
        forall|i: int, j: int| 0 <= i < j < s.len() ==> (#[trigger] s[i]).token != (#[trigger] s[j]).token,
    ensures
        token_count(s, t) > 0 <==> exists|i: int| 0 <= i < s.len() && (#[trigger] s[i]).token == t,
        forall|i: int| 0 <= i < s.len() && (#[trigger] s[i]).token == t ==> token_count(s, t) == s[i].count,
    decreases s.len(),
{
    if s.len() > 0 {
        let d = s.drop_first();
        assert(forall|i: int| 0 <= i < d.len() ==> #[trigger] d[i] == s[i + 1]);
        lemma_token_count_index(d, t);
        assert forall|i: int| 0 <= i < s.len() && (#[trigger] s[i]).token == t implies token_count(s, t)
            == s[i].count by {
            if i == 0 {
                assert(forall|j: int| 0 <= j < d.len() ==> (#[trigger] d[j]).token != t);
                lemma_token_count_drop(d, t, d.len() as int);
                assert(d.skip(d.len() as int) =~= Seq::<LinkModel>::empty());
            } else {
                assert(d[i - 1] == s[i]);
            }
        }
        if token_count(s, t) > 0 {
            if s[0].token == t {
                assert(0 <= 0 < s.len() && s[0].token == t);
            } else {
                let i = choose|i: int| 0 <= i < d.len() && (#[trigger] d[i]).token == t;
                assert(0 <= i + 1 < s.len() && s[i + 1].token == t);
            }
        }
        if exists|i: int| 0 <= i < s.len() && (#[trigger] s[i]).token == t {
            let i = choose|i: int| 0 <= i < s.len() && (#[trigger] s[i]).token == t;
            if i > 0 {
                assert(0 <= i - 1 < d.len() && d[i - 1].token == t);
            }
            assert(token_count(s, t) > 0);
        }
    }
}

impl LinkSet {
    /// An empty link collection.
    pub fn new() -> (r: LinkSet)
        ensures
            r@ =~= Seq::<LinkModel>::empty(),
    {
        LinkSet { links: Vec::new() }
    }

    /// How many distinct successor tokens this set holds.
    pub fn len(&self) -> (n: usize)
        ensures
            n == self@.len(),
    {
        self.links.len()
    }

    /// The link at position `i`, counting from the heaviest.
    pub fn get(&self, i: usize) -> (l: &Link)
        requires
            i < self@.len(),
        ensures
            l@ == self@[i as int],
    {
        &self.links[i]
    }

    /// The index of the link carrying `token`, if the set holds one.
    fn existing(&self, token: &Token) -> (r: Option<usize>)
        ensures
            match r {
                Some(i) => i < self@.len() && self@[i as int].token == token@,
                None => forall|i: int| 0 <= i < self@.len() ==> (#[trigger] self@[i]).token != token@,
            },
    {
        let n = self.links.len();
        let mut i: usize = 0;
        while i < n
            invariant
                i <= n,
                n == self@.len(),
                forall|j: int| 0 <= j < i ==> (#[trigger] self@[j]).token != token@,
            decreases n - i,
        {
            if self.links[i].token.is(token) {
                return Some(i);
            }
            i = i + 1;
        }
        None
    }

    /// Records one new occurrence of `token`: merges into the existing link
    /// for that token, re-establishing descending order, or appends a fresh
    /// link of count one.  The tally of `token` rises by exactly one and no
    /// other tally moves.
    #[verifier::rlimit(50)]
    pub fn insert(&mut self, token: Token)
        requires
            links_wf(old(self)@),
            total_of(old(self)@) < usize::MAX,
        ensures
            links_wf(final(self)@),
            forall|t: TokenModel| token_count(final(self)@, t) == token_count(old(self)@, t) + (
            if t == token@ {
                1nat
            } else {
                0nat
            }),
            total_of(final(self)@) == total_of(old(self)@) + 1,
            final(self)@.len() == old(self)@.len() + (if token_count(old(self)@, token@) == 0 {
                1int
            } else {
                0int
            }),
    {
        let ghost s0 = self@;
        proof {
            lemma_counts_le_total(s0);
            lemma_token_count_index(s0, token@);
        }
        match self.existing(&token) {
            Some(i) => {
                let ghost tok = s0[i as int].token;
                let mut l = self.links.remove(i);
                let ghost s1 = self@;
                proof {
                    assert(s1 =~= s0.remove(i as int));
                    s0.remove_ensures(i as int);
                    assert(forall|k: int| 0 <= k < i ==> #[trigger] s1[k] == s0[k]);
                    assert(forall|k: int| i <= k < s1.len() ==> #[trigger] s1[k] == s0[k + 1]);
                }
                l.count = l.count + 1;
                // Re-insert before the first link that is now strictly lighter.
                let n = self.links.len();
                let mut j: usize = 0;
                while j < n && self.links[j].count >= l.count
                    invariant
                        j <= n,
                        n == self@.len(),
                        self@ == s1,
                        l@.count == s0[i as int].count + 1,
                        forall|k: int| 0 <= k < j ==> (#[trigger] self@[k]).count >= l@.count,
                    decreases n - j,
                {
                    j = j + 1;
                }
                self.links.insert(j, l);
                proof {
                    assert(self@ =~= s1.insert(j as int, l@));
                    s1.insert_ensures(j as int, l@);
                    let s2 = self@;
                    assert(forall|k: int| 0 <= k < j ==> #[trigger] s2[k] == s1[k]);
                    assert forall|k: int| j < k < s2.len() implies #[trigger] s2[k] == s1[k - 1] by {
                        assert(s1.insert(j as int, l@)[k - 1 + 1] == s1[k - 1]);
                    }
                    assert(s2[j as int] == l@);
                    lemma_token_count_remove(s0, token@, i as int);
                    lemma_token_count_insert(s1, token@, j as int, l@);
                    assert forall|t: TokenModel|
                        token_count(s2, t) == token_count(s0, t) + (if t == token@ {
                            1nat
                        } else {
                            0nat
                        }) by {
                        lemma_token_count_remove(s0, t, i as int);
                        lemma_token_count_insert(s1, t, j as int, l@);
                    }
                    // Sortedness: links before position j weigh at least l,
                    // those after kept their order from the sorted original.
                    assert forall|a: int, b: int| 0 <= a < b < s2.len() implies (#[trigger] s2[a]).count
                        >= (#[trigger] s2[b]).count by {
                        if b > j && j < s1.len() {
                            assert(s1[j as int].count < l@.count);
                        }
                    }
                    // Distinct tokens: the bumped token stands only at j.
                    assert forall|k: int| 0 <= k < s1.len() implies (#[trigger] s1[k]).token != tok by {
                        if k < i {
                            assert(s1[k] == s0[k]);
                        } else {
                            assert(s1[k] == s0[k + 1]);
                        }
                    }
                    assert forall|a: int, b: int| 0 <= a < b < s2.len() implies (#[trigger] s2[a]).token
                        != (#[trigger] s2[b]).token by {
                        if a != j && b != j {
                            let pa: int = if a < j {
                                a
                            } else {
                                a - 1
                            };
                            let pb: int = if b < j {
                                b
                            } else {
                                b - 1
                            };
                            assert(s2[a] == s1[pa] && s2[b] == s1[pb]);
                        }
                    }
                }
            },
            None => {
                proof {
                    lemma_token_count_drop(s0, token@, s0.len() as int);
                    assert(s0.skip(s0.len() as int) =~= Seq::<LinkModel>::empty());
                }
                let l = Link::of(token);
                self.links.push(l);
                proof {
                    assert(self@ =~= s0.push(l@));
                    assert(s0.push(l@) =~= s0.insert(s0.len() as int, l@));
                    lemma_token_count_insert(s0, token@, s0.len() as int, l@);
                    assert forall|t: TokenModel|
                        token_count(self@, t) == token_count(s0, t) + (if t == token@ {
                            1nat
                        } else {
                            0nat
                        }) by {
                        lemma_token_count_insert(s0, t, s0.len() as int, l@);
                    }
                }
            },
        }
    }

    /// The heaviest link: the first element of the sorted sequence.
    pub fn best(&self) -> (l: &Link)
        requires
            self@.len() > 0,
        ensures
            l@ == self@[0],
    {
        &self.links[0]
    }
}

/// Public form of the insert tally lemma.
pub proof fn lemma_token_count_insert_pub(s: Seq<LinkModel>, t: TokenModel, i: int, l: LinkModel)
    requires
        0 <= i <= s.len(),
    ensures
        token_count(s.insert(i, l), t) == token_count(s, t) + (if l.token == t {
            l.count
        } else {
            0
        }),
        total_of(s.insert(i, l)) == total_of(s) + l.count,
{
    lemma_token_count_insert(s, t, i, l);
}

/// A prefix of a link sequence weighs at most the whole.
pub proof fn lemma_total_take_le(s: Seq<LinkModel>, k: int)
    requires
        0 <= k <= s.len(),
    ensures
        total_of(s.take(k)) <= total_of(s),
    decreases s.len(),
{
    if k == 0 {
        assert(s.take(0) =~= Seq::<LinkModel>::empty());
    } else {
        let d = s.drop_first();
        lemma_total_take_le(d, k - 1);
        assert(s.take(k)[0] == s[0]);
        assert(s.take(k).drop_first() =~= d.take(k - 1));
    }
}

/// Raising one link's count raises its token's tally by the same amount.
pub proof fn lemma_token_count_update_pub(s: Seq<LinkModel>, j: int, add: nat)
    requires
        0 <= j < s.len(),
    ensures
        forall|t: TokenModel|
            #[trigger] token_count(
                s.update(j, LinkModel { token: s[j].token, count: (s[j].count + add) as nat }),
                t,
            ) == token_count(s, t) + (if t == s[j].token {
                add
            } else {
                0nat
            }),
        total_of(
            s.update(j, LinkModel { token: s[j].token, count: (s[j].count + add) as nat }),
        ) == total_of(s) + add,
{
    let l = LinkModel { token: s[j].token, count: (s[j].count + add) as nat };
    let u = s.update(j, l);
    assert(u =~= s.remove(j).insert(j, l));
    assert forall|t: TokenModel|
        #[trigger] token_count(u, t) == token_count(s, t) + (if t == s[j].token {
            add
        } else {
            0nat
        }) by {
        lemma_token_count_remove(s, t, j);
        lemma_token_count_insert(s.remove(j), t, j, l);
    }
    lemma_token_count_remove(s, s[j].token, j);
    lemma_token_count_insert(s.remove(j), s[j].token, j, l);
}

/// A token has a positive tally in a well-formed link sequence exactly
/// when some link carries it.
pub proof fn lemma_token_count_exists(s: Seq<LinkModel>, t: TokenModel)
    requires
        links_wf(s),
    ensures
        token_count(s, t) > 0 <==> exists|i: int| 0 <= i < s.len() && (#[trigger] s[i]).token == t,
{
    lemma_token_count_index(s, t);
}

/// After any sequence of inserts a link set stays sorted by count descending
/// and never holds two links with equal tokens: both are part of
/// [`links_wf`], which [`LinkSet::insert`] preserves.  The tally of a token
/// with a link in a well-formed set is exactly that link's count.
pub proof fn lemma_distinct_tokens_tally(s: Seq<LinkModel>, i: int)
    requires
        links_wf(s),
        0 <= i < s.len(),
    ensures
        token_count(s, s[i].token) == s[i].count,
{
    lemma_token_count_index(s, s[i].token);
}

} // verus!
