//! The index: per-document term frequencies and the corpus-wide
//! document-frequency map, kept consistent across every add and remove.
//!
//! Both maps are stored as vectors of key/value pairs with unique keys;
//! their mathematical views are `Map`s. The central invariant, part of
//! `Model::wf` and preserved by every operation: for every term, the
//! stored document frequency equals the number of indexed documents
//! whose term-frequency map holds that term.

use vstd::prelude::*;
use vstd::string::StringExecFns;
use crate::lexer::{Lexer, Tok, Token};
use crate::snowball::stem::{stem, stem_spec};
use crate::snowball::StemmingAlgorithm;

verus! {

// ---------------------------------------------------------------------
// Association vectors with unique keys, viewed as maps
// ---------------------------------------------------------------------

/// No two entries share a key.
pub open spec fn keys_unique<V>(s: Seq<(String, V)>) -> bool {
    forall|i: int, j: int| 0 <= i < j < s.len() ==> (#[trigger] s[i]).0@ != (#[trigger] s[j]).0@
}

/// The count map held by a vector of term/count pairs.
pub open spec fn counts_view(s: Seq<(String, usize)>) -> Map<Seq<char>, nat>
    decreases s.len(),
{
    if s.len() == 0 {
        Map::empty()
    } else {
        counts_view(s.drop_last()).insert(s.last().0@, s.last().1 as nat)
    }
}

/// The count of a term in a count map, zero when absent.
pub open spec fn count_of(m: Map<Seq<char>, nat>, t: Seq<char>) -> nat {
    if m.dom().contains(t) {
        m[t]
    } else {
        0
    }
}

/// The sum of all counts in the vector.
pub open spec fn sum_counts(s: Seq<(String, usize)>) -> nat
    decreases s.len(),
{
    if s.len() == 0 {
        0
    } else {
        sum_counts(s.drop_last()) + s.last().1 as nat
    }
}

proof fn lemma_counts_contains(s: Seq<(String, usize)>, t: Seq<char>)
    ensures
        counts_view(s).dom().contains(t) <==> exists|i: int|
            0 <= i < s.len() && (#[trigger] s[i]).0@ == t,
    decreases s.len(),
{
    if s.len() > 0 {
        lemma_counts_contains(s.drop_last(), t);
        if counts_view(s).dom().contains(t) {
            if s.last().0@ != t {
                let i = choose|i: int| 0 <= i < s.len() - 1 && (#[trigger] s.drop_last()[i]).0@
                    == t;
                assert(s[i].0@ == t);
            }
        }
        if exists|i: int| 0 <= i < s.len() && (#[trigger] s[i]).0@ == t {
            let i = choose|i: int| 0 <= i < s.len() && (#[trigger] s[i]).0@ == t;
            if i < s.len() - 1 {
                assert(s.drop_last()[i].0@ == t);
            }
        }
    }
}

proof fn lemma_counts_get(s: Seq<(String, usize)>, i: int)
    requires
        keys_unique(s),
        0 <= i < s.len(),
    ensures
        counts_view(s).dom().contains(s[i].0@),
        counts_view(s)[s[i].0@] == s[i].1 as nat,
    decreases s.len(),
{
    if i < s.len() - 1 {
        assert(s.drop_last()[i] == s[i]);
        lemma_counts_get(s.drop_last(), i);
    }
}

proof fn lemma_counts_update(s: Seq<(String, usize)>, i: int, p: (String, usize))
    requires
        keys_unique(s),
        0 <= i < s.len(),
        p.0@ == s[i].0@,
    ensures
        keys_unique(s.update(i, p)),
        counts_view(s.update(i, p)) == counts_view(s).insert(p.0@, p.1 as nat),
        sum_counts(s.update(i, p)) == sum_counts(s) - s[i].1 + p.1,
    decreases s.len(),
{
    let s2 = s.update(i, p);
    if i == s.len() - 1 {
        assert(s2.drop_last() =~= s.drop_last());
        assert(counts_view(s2) =~= counts_view(s).insert(p.0@, p.1 as nat));
    } else {
        assert(s2.drop_last() =~= s.drop_last().update(i, p));
        lemma_counts_update(s.drop_last(), i, p);
        assert(s2.last() == s.last());
        assert(counts_view(s2) =~= counts_view(s).insert(p.0@, p.1 as nat));
    }
}

/// Look a term's count up.
fn lookup_count(v: &Vec<(String, usize)>, key: &String) -> (r: usize)
    requires
        keys_unique(v@),
    ensures
        r as nat == count_of(counts_view(v@), key@),
{
    let mut i: usize = 0;
    while i < v.len()
        invariant
            keys_unique(v@),
            0 <= i <= v@.len(),
            forall|j: int| 0 <= j < i ==> (#[trigger] v@[j]).0@ != key@,
        decreases v@.len() - i,
    {
        if v[i].0.eq(key) {
            proof {
                lemma_counts_get(v@, i as int);
            }
            return v[i].1;
        }
        i = i + 1;
    }
    proof {
        lemma_counts_contains(v@, key@);
    }
    0
}

/// Raise a term's count by one, inserting it at one if absent.
fn incr_count(v: &mut Vec<(String, usize)>, key: &String)
    requires
        keys_unique(old(v)@),
        count_of(counts_view(old(v)@), key@) < usize::MAX,
    ensures
        keys_unique(final(v)@),
        counts_view(final(v)@) == counts_view(old(v)@).insert(
            key@,
            count_of(counts_view(old(v)@), key@) + 1,
        ),
        sum_counts(final(v)@) == sum_counts(old(v)@) + 1,
        (forall|j: int| 0 <= j < old(v)@.len() ==> (#[trigger] old(v)@[j]).1 >= 1) ==> (forall|
            j: int,
        | 0 <= j < final(v)@.len() ==> (#[trigger] final(v)@[j]).1 >= 1),
{
    let ghost s = v@;
    let mut i: usize = 0;
    while i < v.len()
        invariant
            v@ == s,
            old(v)@ == s,
            keys_unique(s),
            count_of(counts_view(s), key@) < usize::MAX,
            0 <= i <= s.len(),
            forall|j: int| 0 <= j < i ==> (#[trigger] s[j]).0@ != key@,
        decreases s.len() - i,
    {
        if v[i].0.eq(key) {
            proof {
                lemma_counts_get(s, i as int);
                assert(key@ == s[i as int].0@);
                assert(count_of(counts_view(s), key@) == s[i as int].1 as nat);
            }
            let c = v[i].1;
            let k2 = v[i].0.clone();
            proof {
                assert(k2 == s[i as int].0);
            }
            v.set(i, (k2, c + 1));
            proof {
                assert(v@ == s.update(i as int, v@[i as int]));
                assert(v@[i as int].0@ == s[i as int].0@);
                lemma_counts_update(s, i as int, v@[i as int]);
                assert(counts_view(v@) == counts_view(s).insert(key@, (c + 1) as nat));
            }
            return ;
        }
        i = i + 1;
    }
    proof {
        lemma_counts_contains(s, key@);
    }
    v.push((key.clone(), 1));
    proof {
        assert(v@.drop_last() =~= s);
        assert(v@.last().0@ == key@);
        assert(counts_view(v@) =~= counts_view(s).insert(key@, 1nat));
        assert forall|a: int, b: int| 0 <= a < b < v@.len() implies (#[trigger] v@[a]).0@ != (
        #[trigger] v@[b]).0@ by {
            if b == v@.len() - 1 {
                assert(v@[a] == s[a]);
            }
        }
    }
}

/// Lower a term's count by one; the entry stays, possibly at zero.
fn decr_count(v: &mut Vec<(String, usize)>, key: &String)
    requires
        keys_unique(old(v)@),
        count_of(counts_view(old(v)@), key@) >= 1,
    ensures
        keys_unique(final(v)@),
        counts_view(final(v)@) == counts_view(old(v)@).insert(
            key@,
            (count_of(counts_view(old(v)@), key@) - 1) as nat,
        ),
{
    let ghost s = v@;
    proof {
        lemma_counts_contains(s, key@);
    }
    let mut i: usize = 0;
    while i < v.len()
        invariant
            v@ == s,
            old(v)@ == s,
            keys_unique(s),
            count_of(counts_view(s), key@) >= 1,
            0 <= i <= s.len(),
            forall|j: int| 0 <= j < i ==> (#[trigger] s[j]).0@ != key@,
            exists|j: int| 0 <= j < s.len() && (#[trigger] s[j]).0@ == key@,
        decreases s.len() - i,
    {
        if v[i].0.eq(key) {
            proof {
                lemma_counts_get(s, i as int);
                assert(key@ == s[i as int].0@);
                assert(count_of(counts_view(s), key@) == s[i as int].1 as nat);
            }
            let c = v[i].1;
            let k2 = v[i].0.clone();
            proof {
                assert(k2 == s[i as int].0);
            }
            v.set(i, (k2, c - 1));
            proof {
                assert(v@ == s.update(i as int, v@[i as int]));
                assert(v@[i as int].0@ == s[i as int].0@);
                lemma_counts_update(s, i as int, v@[i as int]);
                assert(counts_view(v@) == counts_view(s).insert(key@, (c - 1) as nat));
            }
            return ;
        }
        i = i + 1;
    }
    proof {
        assert(false);
    }
}

// ---------------------------------------------------------------------
// Documents
// ---------------------------------------------------------------------

/// The mathematical content of one indexed document.
pub struct DocView {
    /// Stemmed term to its occurrence count in the document.
    pub tf: Map<Seq<char>, nat>,
    /// Total stemmable tokens seen when the document was indexed.
    pub count: nat,
    /// The timestamp the caller supplied at indexing time.
    pub last_modified: u64,
}

/// One indexed document: its term-frequency table, token count, and
/// the time it was indexed.
pub struct Document {
    tf: Vec<(String, usize)>,
    count: usize,
    last_modified: u64,
}

impl View for Document {
    type V = DocView;

    closed spec fn view(&self) -> DocView {
        DocView {
            tf: counts_view(self.tf@),
            count: self.count as nat,
            last_modified: self.last_modified,
        }
    }
}

impl Document {
    /// The document's internal invariant: unique term keys, positive
    /// counts, and a token count that equals the sum of the term
    /// counts.
    pub closed spec fn inv(&self) -> bool {
        &&& keys_unique(self.tf@)
        &&& sum_counts(self.tf@) == self.count
        &&& forall|i: int| 0 <= i < self.tf@.len() ==> (#[trigger] self.tf@[i]).1 >= 1
    }

    /// How often the given term occurs in this document.
    pub fn term_frequency(&self, term: &str) -> (r: usize)
        requires
            self.inv(),
        ensures
            r as nat == count_of(self@.tf, term@),
    {
        let key = String::from_str(term);
        lookup_count(&self.tf, &key)
    }

    /// The total number of stemmable tokens the document held.
    pub fn token_count(&self) -> (r: usize)
        ensures
            r as nat == self@.count,
    {
        self.count
    }

    /// The timestamp recorded when the document was indexed.
    pub fn last_modified(&self) -> (r: u64)
        ensures
            r == self@.last_modified,
    {
        self.last_modified
    }

    /// The summed frequency of the query terms in this document.
    fn query_freq(&self, qterms: &Vec<String>) -> (num: u128)
        requires
            self.inv(),
        ensures
            num == qfreq(qterms@.map_values(|t: String| t@), self@.tf),
    {
        let ghost ts = qterms@.map_values(|t: String| t@);
        let mut num: u128 = 0;
        let mut i: usize = 0;
        while i < qterms.len()
            invariant
                self.inv(),
                ts == qterms@.map_values(|t: String| t@),
                0 <= i <= ts.len(),
                num == qfreq(ts.subrange(0, i as int), self@.tf),
            decreases ts.len() - i,
        {
            let ghost pre = ts.subrange(0, i as int);
            let ghost post = ts.subrange(0, (i + 1) as int);
            proof {
                assert(post.drop_last() =~= pre);
                assert(post.last() == ts[i as int]);
                lemma_counts_bounded(self.tf@);
                lemma_qfreq_bound(pre, self@.tf, usize::MAX as nat);
                assert(pre.len() * (usize::MAX as nat) + (usize::MAX as nat) <= u128::MAX)
                    by (nonlinear_arith)
                    requires
                        0 <= pre.len() <= 0xFFFF_FFFF_FFFF_FFFFu128,
                ;
            }
            let c = lookup_count(&self.tf, &qterms[i]);
            num = num + (c as u128);
            i = i + 1;
        }
        proof {
            assert(ts.subrange(0, ts.len() as int) =~= ts);
        }
        num
    }

    /// Rebuild a document from snapshot fields; `None` exactly when
    /// the data is malformed: a repeated term, a zero term count, or
    /// a token count that is not the sum of the term counts.
    pub fn from_parts(tf: Vec<(String, usize)>, count: usize, last_modified: u64) -> (r: Option<
        Document,
    >)
        ensures
            (r is Some) == (keys_unique(tf@) && sum_counts(tf@) == count && (forall|i: int|
                0 <= i < tf@.len() ==> (#[trigger] tf@[i]).1 >= 1)),
            r matches Some(d) ==> d.inv() && d@ == (DocView {
                tf: counts_view(tf@),
                count: count as nat,
                last_modified,
            }),
    {
        let n = tf.len();
        let mut a: usize = 0;
        while a < n
            invariant
                n == tf@.len(),
                0 <= a <= n,
                forall|i: int, j: int|
                    0 <= i < j < n && i < a ==> (#[trigger] tf@[i]).0@ != (#[trigger] tf@[j]).0@,
                forall|i: int| 0 <= i < a ==> (#[trigger] tf@[i]).1 >= 1,
            decreases n - a,
        {
            if tf[a].1 == 0 {
                return None;
            }
            let mut b: usize = a + 1;
            while b < n
                invariant
                    n == tf@.len(),
                    0 <= a < b <= n,
                    forall|j: int| a < j < b ==> (#[trigger] tf@[j]).0@ != tf@[a as int].0@,
                decreases n - b,
            {
                if tf[a].0.eq(&tf[b].0) {
                    return None;
                }
                b = b + 1;
            }
            a = a + 1;
        }
        let mut sum: u128 = 0;
        let mut k: usize = 0;
        while k < n
            invariant
                n == tf@.len(),
                0 <= k <= n,
                sum == sum_counts(tf@.subrange(0, k as int)),
                sum <= k * (usize::MAX as nat),
            decreases n - k,
        {
            let ghost pre = tf@.subrange(0, k as int);
            let ghost post = tf@.subrange(0, (k + 1) as int);
            proof {
                assert(post.drop_last() =~= pre);
                assert(post.last() == tf@[k as int]);
                assert(k * (usize::MAX as nat) + (usize::MAX as nat) == (k + 1) * (
                usize::MAX as nat)) by (nonlinear_arith);
                assert((k + 1) * (usize::MAX as nat) <= u128::MAX) by (nonlinear_arith)
                    requires
                        0 <= k + 1 <= 0xFFFF_FFFF_FFFF_FFFFu128 + 1,
                ;
            }
            sum = sum + (tf[k].1 as u128);
            k = k + 1;
        }
        proof {
            assert(tf@.subrange(0, n as int) =~= tf@);
        }
        if sum != (count as u128) {
            return None;
        }
        Some(Document { tf, count, last_modified })
    }

    /// The term/count entries of the document, for walking it.
    pub fn entries(&self) -> (r: &Vec<(String, usize)>)
        ensures
            counts_view(r@) == self@.tf,
            self.inv() ==> keys_unique(r@),
    {
        &self.tf
    }
}

// ---------------------------------------------------------------------
// The model
// ---------------------------------------------------------------------

/// The document map held by the path/document vector.
pub open spec fn docs_view(s: Seq<(String, Document)>) -> Map<Seq<char>, DocView>
    decreases s.len(),
{
    if s.len() == 0 {
        Map::empty()
    } else {
        docs_view(s.drop_last()).insert(s.last().0@, s.last().1@)
    }
}

/// How many documents of the vector contain the term.
pub open spec fn count_docs_with(s: Seq<(String, Document)>, t: Seq<char>) -> nat
    decreases s.len(),
{
    if s.len() == 0 {
        0
    } else {
        count_docs_with(s.drop_last(), t) + (if s.last().1@.tf.dom().contains(t) {
            1nat
        } else {
            0nat
        })
    }
}

proof fn lemma_docs_contains(s: Seq<(String, Document)>, t: Seq<char>)
    ensures
        docs_view(s).dom().contains(t) <==> exists|i: int|
            0 <= i < s.len() && (#[trigger] s[i]).0@ == t,
    decreases s.len(),
{
    if s.len() > 0 {
        lemma_docs_contains(s.drop_last(), t);
        if docs_view(s).dom().contains(t) {
            if s.last().0@ != t {
                let i = choose|i: int| 0 <= i < s.len() - 1 && (#[trigger] s.drop_last()[i]).0@
                    == t;
                assert(s[i].0@ == t);
            }
        }
        if exists|i: int| 0 <= i < s.len() && (#[trigger] s[i]).0@ == t {
            let i = choose|i: int| 0 <= i < s.len() && (#[trigger] s[i]).0@ == t;
            if i < s.len() - 1 {
                assert(s.drop_last()[i].0@ == t);
            }
        }
    }
}

proof fn lemma_docs_get(s: Seq<(String, Document)>, i: int)
    requires
        keys_unique(s),
        0 <= i < s.len(),
    ensures
        docs_view(s).dom().contains(s[i].0@),
        docs_view(s)[s[i].0@] == s[i].1@,
    decreases s.len(),
{
    if i < s.len() - 1 {
        assert(s.drop_last()[i] == s[i]);
        lemma_docs_get(s.drop_last(), i);
    }
}

proof fn lemma_docs_remove(s: Seq<(String, Document)>, i: int)
    requires
        keys_unique(s),
        0 <= i < s.len(),
    ensures
        keys_unique(s.remove(i)),
        docs_view(s.remove(i)) == docs_view(s).remove(s[i].0@),
    decreases s.len(),
{
    let s2 = s.remove(i);
    assert forall|a: int, b: int| 0 <= a < b < s2.len() implies (#[trigger] s2[a]).0@ != (
    #[trigger] s2[b]).0@ by {
        assert(s2[a] == if a < i {
            s[a]
        } else {
            s[a + 1]
        });
        assert(s2[b] == if b < i {
            s[b]
        } else {
            s[b + 1]
        });
    }
    if i == s.len() - 1 {
        assert(s2 =~= s.drop_last());
        lemma_docs_contains(s.drop_last(), s[i].0@);
        assert(docs_view(s2) =~= docs_view(s).remove(s[i].0@));
    } else {
        assert(s2.drop_last() =~= s.drop_last().remove(i));
        assert(s2.last() == s.last());
        lemma_docs_remove(s.drop_last(), i);
        assert(docs_view(s2) =~= docs_view(s).remove(s[i].0@));
    }
}

proof fn lemma_count_remove(s: Seq<(String, Document)>, i: int, t: Seq<char>)
    requires
        0 <= i < s.len(),
    ensures
        count_docs_with(s, t) == count_docs_with(s.remove(i), t) + (if s[i].1@.tf.dom().contains(
            t,
        ) {
            1nat
        } else {
            0nat
        }),
    decreases s.len(),
{
    let s2 = s.remove(i);
    if i == s.len() - 1 {
        assert(s2 =~= s.drop_last());
    } else {
        assert(s2.drop_last() =~= s.drop_last().remove(i));
        assert(s2.last() == s.last());
        lemma_count_remove(s.drop_last(), i, t);
    }
}

proof fn lemma_count_le_len(s: Seq<(String, Document)>, t: Seq<char>)
    ensures
        count_docs_with(s, t) <= s.len(),
    decreases s.len(),
{
    if s.len() > 0 {
        lemma_count_le_len(s.drop_last(), t);
    }
}

// ---------------------------------------------------------------------
// Terms of a text
// ---------------------------------------------------------------------

/// The stemmed terms contributed by a sequence of tokens, in order.
pub open spec fn term_seq(toks: Seq<Tok>) -> Seq<Seq<char>>
    decreases toks.len(),
{
    if toks.len() == 0 {
        Seq::empty()
    } else {
        term_seq(toks.drop_last()) + (match stem_spec(toks.last()) {
            Some(t) => seq![t],
            None => Seq::empty(),
        })
    }
}

/// The stemmed terms of a text: its tokens, stemmed, symbols skipped.
pub open spec fn terms_of(s: Seq<char>) -> Seq<Seq<char>> {
    term_seq(crate::lexer::tokenize_spec(s))
}

/// How often a term occurs in a term sequence.
pub open spec fn occ(terms: Seq<Seq<char>>, t: Seq<char>) -> nat
    decreases terms.len(),
{
    if terms.len() == 0 {
        0
    } else {
        occ(terms.drop_last(), t) + (if terms.last() == t {
            1nat
        } else {
            0nat
        })
    }
}

/// The term-frequency map of a term sequence.
pub open spec fn tf_of(terms: Seq<Seq<char>>) -> Map<Seq<char>, nat> {
    Map::new(|t: Seq<char>| occ(terms, t) > 0, |t: Seq<char>| occ(terms, t))
}

proof fn lemma_occ_le_len(terms: Seq<Seq<char>>, t: Seq<char>)
    ensures
        occ(terms, t) <= terms.len(),
    decreases terms.len(),
{
    if terms.len() > 0 {
        lemma_occ_le_len(terms.drop_last(), t);
    }
}

/// Tokenize and stem a text into its term sequence.
fn stem_terms(content: &str) -> (r: Vec<String>)
    ensures
        r@.map_values(|t: String| t@) == terms_of(content@),
{
    let mut lex = Lexer::new(content);
    let toks = lex.tokenize();
    let ghost tseq = toks@.map_values(|t: Token| t@);
    let mut out: Vec<String> = Vec::new();
    let mut i: usize = 0;
    while i < toks.len()
        invariant
            tseq == toks@.map_values(|t: Token| t@),
            0 <= i <= toks@.len(),
            out@.map_values(|t: String| t@) == term_seq(tseq.subrange(0, i as int)),
        decreases toks@.len() - i,
    {
        let ghost prev = out@.map_values(|t: String| t@);
        proof {
            assert(tseq.subrange(0, (i + 1) as int).drop_last() =~= tseq.subrange(0, i as int));
            assert(tseq.subrange(0, (i + 1) as int).last() == tseq[i as int]);
        }
        match stem(&toks[i], StemmingAlgorithm::Porter2) {
            Some(s) => {
                out.push(s);
                proof {
                    assert(out@.map_values(|t: String| t@) =~= term_seq(
                        tseq.subrange(0, (i + 1) as int),
                    ));
                }
            },
            None => {
                proof {
                    assert(out@.map_values(|t: String| t@) =~= term_seq(
                        tseq.subrange(0, (i + 1) as int),
                    ));
                }
            },
        }
        i = i + 1;
    }
    proof {
        assert(tseq.subrange(0, tseq.len() as int) =~= tseq);
    }
    out
}

// ---------------------------------------------------------------------
// Model
// ---------------------------------------------------------------------

// ---------------------------------------------------------------------
// Query matches and their order
// ---------------------------------------------------------------------

/// One ranked match: the path of a document together with the exact
/// ingredients of its score. The additive score of a document is
/// `freq_sum / token_count` plus an inverse-document-frequency part
/// that is the same for every document of one query, so the order of
/// the matches is the order of these fractions.
pub struct QueryMatch {
    /// The path of the matching document.
    pub path: String,
    /// The summed frequency of the query terms in the document.
    pub freq_sum: u128,
    /// The document's token count: the denominator of the fraction.
    pub token_count: usize,
}

/// The summed frequency of the query terms in a term-frequency map;
/// a term occurring twice in the query counts twice.
pub open spec fn qfreq(terms: Seq<Seq<char>>, tf: Map<Seq<char>, nat>) -> nat
    decreases terms.len(),
{
    if terms.len() == 0 {
        0
    } else {
        qfreq(terms.drop_last(), tf) + count_of(tf, terms.last())
    }
}

/// `a` scores at least as high as `b`: the fraction `freq_sum /
/// token_count` of `a` is at least that of `b`.
pub open spec fn score_ge(a: QueryMatch, b: QueryMatch) -> bool {
    a.freq_sum * b.token_count >= b.freq_sum * a.token_count
}

proof fn lemma_counts_bounded(s: Seq<(String, usize)>)
    ensures
        forall|t: Seq<char>| #[trigger] count_of(counts_view(s), t) <= usize::MAX,
    decreases s.len(),
{
    if s.len() > 0 {
        lemma_counts_bounded(s.drop_last());
        assert forall|t: Seq<char>| #[trigger] count_of(counts_view(s), t)
            <= usize::MAX by {
            if t != s.last().0@ {
                assert(count_of(counts_view(s.drop_last()), t) <= usize::MAX);
            }
        }
    }
}

proof fn lemma_count_le_sum(s: Seq<(String, usize)>, t: Seq<char>)
    ensures
        count_of(counts_view(s), t) <= sum_counts(s),
    decreases s.len(),
{
    if s.len() > 0 {
        lemma_count_le_sum(s.drop_last(), t);
    }
}

proof fn lemma_qfreq_bound(terms: Seq<Seq<char>>, tf: Map<Seq<char>, nat>, bound: nat)
    requires
        forall|t: Seq<char>| #[trigger] count_of(tf, t) <= bound,
    ensures
        qfreq(terms, tf) <= terms.len() * bound,
    decreases terms.len(),
{
    if terms.len() > 0 {
        lemma_qfreq_bound(terms.drop_last(), tf, bound);
        assert((terms.len() - 1) * bound + bound == terms.len() * bound) by (nonlinear_arith);
    }
}

proof fn lemma_qfreq_pos(terms: Seq<Seq<char>>, s: Seq<(String, usize)>)
    requires
        qfreq(terms, counts_view(s)) > 0,
    ensures
        sum_counts(s) >= 1,
    decreases terms.len(),
{
    if terms.len() > 0 {
        if count_of(counts_view(s), terms.last()) > 0 {
            lemma_count_le_sum(s, terms.last());
        } else {
            lemma_qfreq_pos(terms.drop_last(), s);
        }
    }
}

proof fn lemma_score_ge_trans(a: QueryMatch, b: QueryMatch, c: QueryMatch)
    requires
        a.token_count >= 1,
        b.token_count >= 1,
        c.token_count >= 1,
        score_ge(a, b),
        score_ge(b, c),
    ensures
        score_ge(a, c),
{
    let an = a.freq_sum as int;
    let ad = a.token_count as int;
    let bn = b.freq_sum as int;
    let bd = b.token_count as int;
    let cn = c.freq_sum as int;
    let cd = c.token_count as int;
    assert(an * cd >= cn * ad) by (nonlinear_arith)
        requires
            an * bd >= bn * ad,
            bn * cd >= cn * bd,
            an >= 0,
            bn >= 0,
            cn >= 0,
            ad >= 1,
            bd >= 1,
            cd >= 1,
    ;
}

proof fn lemma_rational_ge(a: int, b: int, c: int, d: int)
    requires
        a >= 0,
        c >= 0,
        b >= 1,
        d >= 1,
    ensures
        (a * d >= c * b) <==> ((a / b > c / d) || (a / b == c / d && (a % b) * d >= (c % d) * b)),
{
    let q1 = a / b;
    let r1 = a % b;
    let q2 = c / d;
    let r2 = c % d;
    vstd::arithmetic::div_mod::lemma_fundamental_div_mod(a, b);
    vstd::arithmetic::div_mod::lemma_fundamental_div_mod(c, d);
    vstd::arithmetic::div_mod::lemma_mod_bound(a, b);
    vstd::arithmetic::div_mod::lemma_mod_bound(c, d);
    assert(q1 >= 0) by (nonlinear_arith)
        requires
            a == b * q1 + r1,
            a >= 0,
            b >= 1,
            0 <= r1 < b,
    ;
    assert(q2 >= 0) by (nonlinear_arith)
        requires
            c == d * q2 + r2,
            c >= 0,
            d >= 1,
            0 <= r2 < d,
    ;
    if q1 > q2 {
        assert(a * d >= c * b) by (nonlinear_arith)
            requires
                a == b * q1 + r1,
                c == d * q2 + r2,
                0 <= r1 < b,
                0 <= r2 < d,
                b >= 1,
                d >= 1,
                q1 >= q2 + 1,
                q2 >= 0,
        ;
    } else if q1 < q2 {
        assert(a * d < c * b) by (nonlinear_arith)
            requires
                a == b * q1 + r1,
                c == d * q2 + r2,
                0 <= r1 < b,
                0 <= r2 < d,
                b >= 1,
                d >= 1,
                q2 >= q1 + 1,
                q1 >= 0,
        ;
    } else {
        assert(a * d - c * b == r1 * d - r2 * b) by (nonlinear_arith)
            requires
                a == b * q1 + r1,
                c == d * q2 + r2,
                q1 == q2,
        ;
    }
}

/// Decide `score_ge` exactly, comparing the fractions by quotient and
/// remainder so that no product overflows.
fn ge_exec(a: &QueryMatch, b: &QueryMatch) -> (r: bool)
    requires
        a.token_count >= 1,
        b.token_count >= 1,
    ensures
        r == score_ge(*a, *b),
{
    let ad = a.token_count as u128;
    let bd = b.token_count as u128;
    let q1 = a.freq_sum / ad;
    let r1 = a.freq_sum % ad;
    let q2 = b.freq_sum / bd;
    let r2 = b.freq_sum % bd;
    proof {
        lemma_rational_ge(
            a.freq_sum as int,
            a.token_count as int,
            b.freq_sum as int,
            b.token_count as int,
        );
        assert(r1 * bd <= u128::MAX && r2 * ad <= u128::MAX) by (nonlinear_arith)
            requires
                0 <= r1 < ad,
                0 <= r2 < bd,
                ad <= 0xFFFF_FFFF_FFFF_FFFFu128,
                bd <= 0xFFFF_FFFF_FFFF_FFFFu128,
        ;
    }
    if q1 != q2 {
        q1 > q2
    } else {
        r1 * bd >= r2 * ad
    }
}

/// The index itself: the document map and the document-frequency map.
pub struct Model {
    documents: Vec<(String, Document)>,
    df: Vec<(String, usize)>,
}

impl Model {
    /// The documents, as a map from path to document content.
    pub closed spec fn docs(&self) -> Map<Seq<char>, DocView> {
        docs_view(self.documents@)
    }

    /// The stored document frequency of a term, zero when unseen.
    pub closed spec fn df_of(&self, t: Seq<char>) -> nat {
        count_of(counts_view(self.df@), t)
    }

    /// The number of indexed documents.
    pub closed spec fn doc_count(&self) -> nat {
        self.documents@.len() as nat
    }

    /// Well-formedness: unique keys in both vectors, well-formed
    /// documents, and the document-frequency invariant — for every
    /// term, the stored frequency is the number of documents whose
    /// term-frequency map contains it.
    pub closed spec fn wf(&self) -> bool {
        &&& keys_unique(self.documents@)
        &&& keys_unique(self.df@)
        &&& forall|i: int| 0 <= i < self.documents@.len() ==> (#[trigger] self.documents@[
            i
        ]).1.inv()
        &&& forall|t: Seq<char>| #[trigger] count_of(counts_view(self.df@), t) == count_docs_with(
            self.documents@,
            t,
        )
    }

    /// An empty index.
    pub fn new() -> (m: Model)
        ensures
            m.wf(),
            m.docs() == Map::<Seq<char>, DocView>::empty(),
            m.doc_count() == 0,
    {
        Model { documents: Vec::new(), df: Vec::new() }
    }

    /// The number of indexed documents.
    pub fn document_count(&self) -> (r: usize)
        ensures
            r as nat == self.doc_count(),
    {
        self.documents.len()
    }

    /// The stored document frequency of a term (zero when unseen).
    pub fn document_frequency(&self, term: &str) -> (r: usize)
        requires
            self.wf(),
        ensures
            r as nat == self.df_of(term@),
    {
        let key = String::from_str(term);
        lookup_count(&self.df, &key)
    }

    /// Whether a document is indexed under the path.
    pub fn contains_document(&self, path: &str) -> (r: bool)
        requires
            self.wf(),
        ensures
            r == self.docs().dom().contains(path@),
    {
        let r = self.find_doc(path);
        proof {
            lemma_docs_contains(self.documents@, path@);
        }
        r.is_some()
    }

    /// How often the term occurs in the document at the path; zero if
    /// the path is not indexed.
    pub fn term_frequency(&self, path: &str, term: &str) -> (r: usize)
        requires
            self.wf(),
        ensures
            r as nat == if self.docs().dom().contains(path@) {
                count_of(self.docs()[path@].tf, term@)
            } else {
                0
            },
    {
        proof {
            lemma_docs_contains(self.documents@, path@);
        }
        match self.find_doc(path) {
            Some(i) => {
                proof {
                    lemma_docs_get(self.documents@, i as int);
                }
                self.documents[i].1.term_frequency(term)
            },
            None => 0,
        }
    }

    /// The token count of the document at the path, if indexed.
    pub fn token_count(&self, path: &str) -> (r: Option<usize>)
        requires
            self.wf(),
        ensures
            (r is Some) == self.docs().dom().contains(path@),
            r matches Some(c) ==> c as nat == self.docs()[path@].count,
    {
        proof {
            lemma_docs_contains(self.documents@, path@);
        }
        match self.find_doc(path) {
            Some(i) => {
                proof {
                    lemma_docs_get(self.documents@, i as int);
                }
                Some(self.documents[i].1.token_count())
            },
            None => None,
        }
    }

    /// The index of the document entry with the given path.
    fn find_doc(&self, path: &str) -> (r: Option<usize>)
        ensures
            r matches Some(i) ==> i < self.documents@.len() && self.documents@[i as int].0@
                == path@,
            r is None ==> forall|j: int|
                0 <= j < self.documents@.len() ==> (#[trigger] self.documents@[j]).0@ != path@,
    {
        let key = String::from_str(path);
        let mut i: usize = 0;
        while i < self.documents.len()
            invariant
                key@ == path@,
                0 <= i <= self.documents@.len(),
                forall|j: int| 0 <= j < i ==> (#[trigger] self.documents@[j]).0@ != path@,
            decreases self.documents@.len() - i,
        {
            if self.documents[i].0.eq(&key) {
                return Some(i);
            }
            i = i + 1;
        }
        None
    }

    /// Raise the document frequency of every term of the document by
    /// one.
    fn df_add_doc(&mut self, doc: &Document)
        requires
            old(self).wf(),
            doc.inv(),
            old(self).doc_count() < usize::MAX,
        ensures
            keys_unique(final(self).df@),
            final(self).documents == old(self).documents,
            forall|t: Seq<char>| #[trigger] count_of(counts_view(final(self).df@), t) == count_of(
                counts_view(old(self).df@),
                t,
            ) + (if doc@.tf.dom().contains(t) {
                1nat
            } else {
                0nat
            }),
    {
        let ghost tf0 = doc.tf@;
        let ghost df0 = self.df@;
        let mut i: usize = 0;
        while i < doc.tf.len()
            invariant
                doc.inv(),
                keys_unique(self.df@),
                self.documents == old(self).documents,
                old(self).wf(),
                old(self).doc_count() < usize::MAX,
                tf0 == doc.tf@,
                df0 == old(self).df@,
                0 <= i <= tf0.len(),
                forall|t: Seq<char>| #[trigger] count_of(counts_view(self.df@), t) == count_of(
                    counts_view(df0),
                    t,
                ) + (if exists|j: int| 0 <= j < i && (#[trigger] tf0[j]).0@ == t {
                    1nat
                } else {
                    0nat
                }),
            decreases tf0.len() - i,
        {
            let ghost dfb = self.df@;
            let key = doc.tf[i].0.clone();
            proof {
                assert(!(exists|j: int| 0 <= j < i && (#[trigger] tf0[j]).0@ == key@));
                assert(count_of(counts_view(dfb), key@) == count_of(counts_view(df0), key@));
                lemma_count_le_len(old(self).documents@, key@);
            }
            incr_count(&mut self.df, &key);
            proof {
                assert forall|t: Seq<char>| #[trigger] count_of(counts_view(self.df@), t)
                    == count_of(counts_view(df0), t) + (if exists|j: int|
                    0 <= j < i + 1 && (#[trigger] tf0[j]).0@ == t {
                    1nat
                } else {
                    0nat
                }) by {
                    if t == key@ {
                        assert(tf0[i as int].0@ == t);
                    } else {
                        assert(count_of(counts_view(self.df@), t) == count_of(
                            counts_view(dfb),
                            t,
                        ));
                        assert((exists|j: int| 0 <= j < i + 1 && (#[trigger] tf0[j]).0@ == t)
                            == (exists|j: int| 0 <= j < i && (#[trigger] tf0[j]).0@ == t));
                    }
                }
            }
            i = i + 1;
        }
        proof {
            assert forall|t: Seq<char>| #[trigger] count_of(counts_view(self.df@), t) == count_of(
                counts_view(df0),
                t,
            ) + (if doc@.tf.dom().contains(t) {
                1nat
            } else {
                0nat
            }) by {
                lemma_counts_contains(tf0, t);
            }
        }
    }

    /// Lower the document frequency of every term of the document by
    /// one.
    fn df_remove_doc(&mut self, doc: &Document, Ghost(docs_now): Ghost<Seq<(String, Document)>>)
        requires
            doc.inv(),
            keys_unique(old(self).df@),
            forall|t: Seq<char>| #[trigger] count_of(counts_view(old(self).df@), t)
                == count_docs_with(docs_now, t) + (if doc@.tf.dom().contains(t) {
                1nat
            } else {
                0nat
            }),
        ensures
            keys_unique(final(self).df@),
            final(self).documents == old(self).documents,
            forall|t: Seq<char>| #[trigger] count_of(counts_view(final(self).df@), t)
                == count_docs_with(docs_now, t),
    {
        let ghost tf0 = doc.tf@;
        let ghost df0 = self.df@;
        let mut i: usize = 0;
        while i < doc.tf.len()
            invariant
                doc.inv(),
                keys_unique(self.df@),
                self.documents == old(self).documents,
                tf0 == doc.tf@,
                df0 == old(self).df@,
                0 <= i <= tf0.len(),
                forall|t: Seq<char>| #[trigger] count_of(counts_view(old(self).df@), t)
                    == count_docs_with(docs_now, t) + (if doc@.tf.dom().contains(t) {
                    1nat
                } else {
                    0nat
                }),
                forall|t: Seq<char>| #[trigger] count_of(counts_view(self.df@), t) == count_of(
                    counts_view(df0),
                    t,
                ) - (if exists|j: int| 0 <= j < i && (#[trigger] tf0[j]).0@ == t {
                    1nat
                } else {
                    0nat
                }),
            decreases tf0.len() - i,
        {
            let ghost dfb = self.df@;
            let key = doc.tf[i].0.clone();
            proof {
                assert(!(exists|j: int| 0 <= j < i && (#[trigger] tf0[j]).0@ == key@));
                assert(count_of(counts_view(dfb), key@) == count_of(counts_view(df0), key@));
                lemma_counts_get(tf0, i as int);
                assert(doc@.tf.dom().contains(key@));
                assert(count_of(counts_view(df0), key@) >= 1);
            }
            decr_count(&mut self.df, &key);
            proof {
                assert forall|t: Seq<char>| #[trigger] count_of(counts_view(self.df@), t)
                    == count_of(counts_view(df0), t) - (if exists|j: int|
                    0 <= j < i + 1 && (#[trigger] tf0[j]).0@ == t {
                    1nat
                } else {
                    0nat
                }) by {
                    if t == key@ {
                        assert(tf0[i as int].0@ == t);
                    } else {
                        assert(count_of(counts_view(self.df@), t) == count_of(
                            counts_view(dfb),
                            t,
                        ));
                        assert((exists|j: int| 0 <= j < i + 1 && (#[trigger] tf0[j]).0@ == t)
                            == (exists|j: int| 0 <= j < i && (#[trigger] tf0[j]).0@ == t));
                    }
                }
            }
            i = i + 1;
        }
        proof {
            assert forall|t: Seq<char>| #[trigger] count_of(counts_view(self.df@), t)
                == count_docs_with(docs_now, t) by {
                lemma_counts_contains(tf0, t);
            }
        }
    }

    /// A correct result entry for a query with the stemmed terms
    /// `qts`: a document some query term occurs in, with its exact
    /// summed term frequency and token count.
    pub open spec fn is_match_entry(self, qts: Seq<Seq<char>>, e: QueryMatch) -> bool {
        &&& self.docs().dom().contains(e.path@)
        &&& e.freq_sum == qfreq(qts, self.docs()[e.path@].tf)
        &&& e.token_count == self.docs()[e.path@].count
        &&& e.freq_sum > 0
        &&& e.token_count >= 1
    }

    /// Rank the indexed documents against the query: the result holds
    /// exactly the documents in which at least one stemmed query term
    /// occurs, each once, in descending order of score.
    pub fn query(&self, query: &str) -> (res: Vec<QueryMatch>)
        requires
            self.wf(),
        ensures
            forall|k: int| 0 <= k < res@.len() ==> self.is_match_entry(
                terms_of(query@),
                #[trigger] res@[k],
            ),
            forall|k: int, l: int| 0 <= k < l < res@.len() ==> (#[trigger] res@[k]).path@ != (
            #[trigger] res@[l]).path@,
            forall|p: Seq<char>|
                self.docs().dom().contains(p) && qfreq(
                    terms_of(query@),
                    (#[trigger] self.docs()[p]).tf,
                ) > 0 ==> exists|k: int| 0 <= k < res@.len() && (#[trigger] res@[k]).path@ == p,
            forall|k: int, l: int| 0 <= k < l < res@.len() ==> score_ge(
                #[trigger] res@[k],
                #[trigger] res@[l],
            ),
    {
        let qterms = stem_terms(query);
        let ghost qts = terms_of(query@);
        let ghost s = self.documents@;
        let mut pool: Vec<QueryMatch> = Vec::new();
        let mut i: usize = 0;
        while i < self.documents.len()
            invariant
                self.wf(),
                s == self.documents@,
                qts == qterms@.map_values(|t: String| t@),
                qts == terms_of(query@),
                0 <= i <= s.len(),
                forall|k: int| 0 <= k < pool@.len() ==> self.is_match_entry(
                    qts,
                    #[trigger] pool@[k],
                ),
                forall|k: int| 0 <= k < pool@.len() ==> exists|j: int|
                    0 <= j < i && (#[trigger] pool@[k]).path@ == s[j].0@,
                forall|k: int, l: int| 0 <= k < l < pool@.len() ==> (#[trigger] pool@[k]).path@
                    != (#[trigger] pool@[l]).path@,
                forall|j: int|
                    0 <= j < i && qfreq(qts, (#[trigger] s[j]).1@.tf) > 0 ==> exists|k: int|
                        0 <= k < pool@.len() && (#[trigger] pool@[k]).path@ == s[j].0@,
            decreases s.len() - i,
        {
            proof {
                lemma_docs_get(s, i as int);
            }
            let num = self.documents[i].1.query_freq(&qterms);
            if num > 0 {
                proof {
                    lemma_qfreq_pos(qts, self.documents@[i as int].1.tf@);
                }
                let path = self.documents[i].0.clone();
                let tc = self.documents[i].1.token_count();
                let ghost pool0 = pool@;
                pool.push(QueryMatch { path, freq_sum: num, token_count: tc });
                proof {
                    assert forall|k: int|
                        0 <= k < pool@.len() implies exists|j: int|
                        0 <= j < i + 1 && (#[trigger] pool@[k]).path@ == s[j].0@ by {
                        if k < pool0.len() {
                            let j = choose|j: int|
                                0 <= j < i && (#[trigger] pool0[k]).path@ == s[j].0@;
                            assert(pool@[k].path@ == s[j].0@);
                        } else {
                            assert(pool@[k].path@ == s[i as int].0@);
                        }
                    }
                    assert forall|j: int|
                        0 <= j < i + 1 && qfreq(qts, (#[trigger] s[j]).1@.tf)
                            > 0 implies exists|k: int|
                        0 <= k < pool@.len() && (#[trigger] pool@[k]).path@ == s[j].0@ by {
                        if j < i {
                            let k = choose|k: int|
                                0 <= k < pool0.len() && (#[trigger] pool0[k]).path@ == s[j].0@;
                            assert(pool@[k].path@ == s[j].0@);
                        } else {
                            assert(pool@[pool@.len() - 1].path@ == s[j].0@);
                        }
                    }
                }
            } else {
                proof {
                    assert forall|j: int|
                        0 <= j < i + 1 && qfreq(qts, (#[trigger] s[j]).1@.tf)
                            > 0 implies exists|k: int|
                        0 <= k < pool@.len() && (#[trigger] pool@[k]).path@ == s[j].0@ by {
                        assert(j < i);
                    }
                }
            }
            i = i + 1;
        }
        proof {
            assert forall|p: Seq<char>|
                self.docs().dom().contains(p) && qfreq(qts, (#[trigger] self.docs()[p]).tf)
                    > 0 implies exists|k: int|
                0 <= k < pool@.len() && (#[trigger] pool@[k]).path@ == p by {
                lemma_docs_contains(s, p);
                let j = choose|j: int| 0 <= j < s.len() && (#[trigger] s[j]).0@ == p;
                lemma_docs_get(s, j);
            }
        }
        // repeatedly move the highest-scoring entry over
        let mut res: Vec<QueryMatch> = Vec::new();
        while pool.len() > 0
            invariant
                forall|k: int| 0 <= k < pool@.len() ==> self.is_match_entry(
                    qts,
                    #[trigger] pool@[k],
                ),
                forall|k: int| 0 <= k < res@.len() ==> self.is_match_entry(
                    qts,
                    #[trigger] res@[k],
                ),
                forall|k: int, l: int| 0 <= k < l < pool@.len() ==> (#[trigger] pool@[k]).path@
                    != (#[trigger] pool@[l]).path@,
                forall|k: int, l: int| 0 <= k < l < res@.len() ==> (#[trigger] res@[k]).path@
                    != (#[trigger] res@[l]).path@,
                forall|k: int, l: int|
                    0 <= k < res@.len() && 0 <= l < pool@.len() ==> (#[trigger] res@[k]).path@
                        != (#[trigger] pool@[l]).path@,
                forall|p: Seq<char>|
                    self.docs().dom().contains(p) && qfreq(qts, (#[trigger] self.docs()[p]).tf)
                        > 0 ==> (exists|k: int|
                        0 <= k < res@.len() && (#[trigger] res@[k]).path@ == p) || (exists|k: int|
                        0 <= k < pool@.len() && (#[trigger] pool@[k]).path@ == p),
                forall|k: int, l: int| 0 <= k < l < res@.len() ==> score_ge(
                    #[trigger] res@[k],
                    #[trigger] res@[l],
                ),
                forall|k: int, l: int|
                    0 <= k < res@.len() && 0 <= l < pool@.len() ==> score_ge(
                        #[trigger] res@[k],
                        #[trigger] pool@[l],
                    ),
            decreases pool@.len(),
        {
            let mut best: usize = 0;
            let mut j: usize = 1;
            while j < pool.len()
                invariant
                    forall|k: int| 0 <= k < pool@.len() ==> self.is_match_entry(
                        qts,
                        #[trigger] pool@[k],
                    ),
                    pool@.len() > 0,
                    0 <= best < j <= pool@.len(),
                    forall|m: int| 0 <= m < j ==> score_ge(
                        pool@[best as int],
                        #[trigger] pool@[m],
                    ),
                decreases pool@.len() - j,
            {
                if ge_exec(&pool[j], &pool[best]) {
                    proof {
                        let old_best = best as int;
                        assert forall|m: int| 0 <= m < j + 1 implies score_ge(
                            pool@[j as int],
                            #[trigger] pool@[m],
                        ) by {
                            if m < j {
                                lemma_score_ge_trans(pool@[j as int], pool@[old_best], pool@[m]);
                            }
                        }
                    }
                    best = j;
                } else {
                    proof {
                        assert(score_ge(pool@[best as int], pool@[j as int]));
                    }
                }
                j = j + 1;
            }
            let ghost pool0 = pool@;
            let ghost res0 = res@;
            let chosen = pool.remove(best);
            res.push(chosen);
            proof {
                assert(res@[res@.len() - 1] == pool0[best as int]);
                assert forall|k: int, l: int|
                    0 <= k < res@.len() && 0 <= l < pool@.len() implies (#[trigger] res@[k]).path@
                    != (#[trigger] pool@[l]).path@ by {
                    assert(pool@[l] == if l < best {
                        pool0[l]
                    } else {
                        pool0[l + 1]
                    });
                }
                assert forall|k: int, l: int|
                    0 <= k < res@.len() && 0 <= l < pool@.len() implies score_ge(
                        #[trigger] res@[k],
                        #[trigger] pool@[l],
                    ) by {
                    assert(pool@[l] == if l < best {
                        pool0[l]
                    } else {
                        pool0[l + 1]
                    });
                }
                assert forall|p: Seq<char>|
                    self.docs().dom().contains(p) && qfreq(qts, (#[trigger] self.docs()[p]).tf)
                        > 0 implies (exists|k: int|
                    0 <= k < res@.len() && (#[trigger] res@[k]).path@ == p) || (exists|k: int|
                    0 <= k < pool@.len() && (#[trigger] pool@[k]).path@ == p) by {
                    if exists|k: int| 0 <= k < res0.len() && (#[trigger] res0[k]).path@ == p {
                        let k = choose|k: int|
                            0 <= k < res0.len() && (#[trigger] res0[k]).path@ == p;
                        assert(res@[k].path@ == p);
                    } else {
                        let k = choose|k: int|
                            0 <= k < pool0.len() && (#[trigger] pool0[k]).path@ == p;
                        if k == best {
                            assert(res@[res@.len() - 1].path@ == p);
                        } else if k < best {
                            assert(pool@[k].path@ == p);
                        } else {
                            assert(pool@[k - 1].path@ == p);
                        }
                    }
                }
            }
        }
        res
    }

    /// Remove the document at the path, lowering the document
    /// frequency of each of its terms; removing an unknown path
    /// changes nothing.
    pub fn remove(&mut self, path: &str)
        requires
            old(self).wf(),
        ensures
            final(self).wf(),
            final(self).docs() == old(self).docs().remove(path@),
            final(self).doc_count() <= old(self).doc_count(),
    {
        let ghost s = self.documents@;
        match self.find_doc(path) {
            Some(i) => {
                proof {
                    lemma_docs_remove(s, i as int);
                }
                let (_, doc) = self.documents.remove(i);
                proof {
                    assert forall|t: Seq<char>| #[trigger] count_of(counts_view(self.df@), t)
                        == count_docs_with(self.documents@, t) + (if doc@.tf.dom().contains(t) {
                        1nat
                    } else {
                        0nat
                    }) by {
                        lemma_count_remove(s, i as int, t);
                    }
                }
                self.df_remove_doc(&doc, Ghost(self.documents@));
            },
            None => {
                proof {
                    lemma_docs_contains(s, path@);
                    assert(docs_view(s) =~= docs_view(s).remove(path@));
                }
            },
        }
    }

    /// Index the text under the path with the given timestamp: any
    /// prior entry for the path is unindexed first, the text is
    /// tokenized and stemmed, and the document-frequency map is raised
    /// for each distinct term of the new document.
    pub fn add(&mut self, path: &str, content: &str, timestamp: u64)
        requires
            old(self).wf(),
            old(self).doc_count() < usize::MAX,
        ensures
            final(self).wf(),
            final(self).docs() == old(self).docs().insert(
                path@,
                (DocView {
                    tf: tf_of(terms_of(content@)),
                    count: terms_of(content@).len() as nat,
                    last_modified: timestamp,
                }),
            ),
            final(self).doc_count() <= old(self).doc_count() + 1,
    {
        self.remove(path);
        let terms = stem_terms(content);
        let ghost tseq = terms@.map_values(|t: String| t@);
        let mut tf: Vec<(String, usize)> = Vec::new();
        let mut count: usize = 0;
        let mut i: usize = 0;
        while i < terms.len()
            invariant
                tseq == terms@.map_values(|t: String| t@),
                0 <= i <= tseq.len(),
                count == i,
                keys_unique(tf@),
                counts_view(tf@) == tf_of(tseq.subrange(0, i as int)),
                sum_counts(tf@) == i,
                forall|j: int| 0 <= j < tf@.len() ==> (#[trigger] tf@[j]).1 >= 1,
            decreases tseq.len() - i,
        {
            let ghost pre = tseq.subrange(0, i as int);
            let ghost post = tseq.subrange(0, (i + 1) as int);
            proof {
                assert(post.drop_last() =~= pre);
                assert(post.last() == tseq[i as int]);
                lemma_occ_le_len(pre, tseq[i as int]);
            }
            incr_count(&mut tf, &terms[i]);
            count = count + 1;
            proof {
                assert forall|t: Seq<char>| #[trigger] occ(post, t) == (if t == tseq[i as int] {
                    occ(pre, t) + 1nat
                } else {
                    occ(pre, t)
                }) by {}
                assert(counts_view(tf@) =~= tf_of(post));
            }
            i = i + 1;
        }
        proof {
            assert(tseq.subrange(0, tseq.len() as int) =~= tseq);
        }
        let doc = Document { tf, count, last_modified: timestamp };
        self.push_doc(String::from_str(path), doc);
        proof {
            assert(old(self).docs().remove(path@).insert(path@, (DocView {
                tf: tf_of(terms_of(content@)),
                count: terms_of(content@).len() as nat,
                last_modified: timestamp,
            })) =~= old(self).docs().insert(
                path@,
                (DocView {
                    tf: tf_of(terms_of(content@)),
                    count: terms_of(content@).len() as nat,
                    last_modified: timestamp,
                }),
            ));
        }
    }

    /// Append a document that is not yet indexed, raising the
    /// document frequency of each of its terms.
    fn push_doc(&mut self, path: String, doc: Document)
        requires
            old(self).wf(),
            doc.inv(),
            !old(self).docs().dom().contains(path@),
            old(self).doc_count() < usize::MAX,
        ensures
            final(self).wf(),
            final(self).docs() == old(self).docs().insert(path@, doc@),
            final(self).doc_count() == old(self).doc_count() + 1,
    {
        let ghost docv = doc@;
        let ghost docs_mid = self.documents@;
        let ghost pathv = path@;
        self.df_add_doc(&doc);
        proof {
            lemma_docs_contains(docs_mid, pathv);
        }
        self.documents.push((path, doc));
        proof {
            let s2 = self.documents@;
            assert(s2.drop_last() =~= docs_mid);
            assert(s2.last().1@ == docv);
            assert forall|a: int, b: int| 0 <= a < b < s2.len() implies (#[trigger] s2[a]).0@ != (
            #[trigger] s2[b]).0@ by {}
            assert(docs_view(s2) =~= old(self).docs().insert(pathv, docv));
            assert forall|t: Seq<char>| #[trigger] count_of(counts_view(self.df@), t)
                == count_docs_with(s2, t) by {
                assert(count_docs_with(s2, t) == count_docs_with(docs_mid, t) + (
                if docv.tf.dom().contains(t) {
                    1nat
                } else {
                    0nat
                }));
            }
        }
    }

    /// Rebuild an index from its document entries, recomputing the
    /// document-frequency map; `None` exactly when two entries share
    /// a path.
    pub fn from_documents(entries: Vec<(String, Document)>) -> (r: Option<Model>)
        requires
            forall|i: int| 0 <= i < entries@.len() ==> (#[trigger] entries@[i]).1.inv(),
        ensures
            (r is Some) == keys_unique(entries@),
            r matches Some(m) ==> m.wf() && m.docs() == docs_view(entries@),
    {
        let n = entries.len();
        let mut a: usize = 0;
        while a < n
            invariant
                n == entries@.len(),
                0 <= a <= n,
                forall|i: int, j: int|
                    0 <= i < j < n && i < a ==> (#[trigger] entries@[i]).0@ != (
                    #[trigger] entries@[j]).0@,
            decreases n - a,
        {
            let mut b: usize = a + 1;
            while b < n
                invariant
                    n == entries@.len(),
                    0 <= a < b <= n,
                    forall|j: int| a < j < b ==> (#[trigger] entries@[j]).0@ != entries@[
                        a as int
                    ].0@,
                decreases n - b,
            {
                if entries[a].0.eq(&entries[b].0) {
                    return None;
                }
                b = b + 1;
            }
            a = a + 1;
        }
        let ghost orig = entries@;
        let mut rest = entries;
        let mut m = Model::new();
        let mut i: usize = 0;
        while i < n
            invariant
                n == orig.len(),
                0 <= i <= n,
                keys_unique(orig),
                forall|j: int| 0 <= j < orig.len() ==> (#[trigger] orig[j]).1.inv(),
                rest@ == orig.subrange(i as int, n as int),
                m.wf(),
                m.docs() == docs_view(orig.subrange(0, i as int)),
                m.doc_count() == i,
            decreases n - i,
        {
            let ghost pre = orig.subrange(0, i as int);
            let (path, doc) = rest.remove(0);
            proof {
                assert(rest@ =~= orig.subrange((i + 1) as int, n as int));
                assert(path == orig[i as int].0 && doc == orig[i as int].1);
                lemma_docs_contains(pre, path@);
                assert forall|j: int| 0 <= j < pre.len() implies (#[trigger] pre[j]).0@
                    != path@ by {
                    assert(pre[j] == orig[j]);
                }
            }
            m.push_doc(path, doc);
            proof {
                let post = orig.subrange(0, (i + 1) as int);
                assert(post.drop_last() =~= pre);
                assert(post.last() == orig[i as int]);
            }
            i = i + 1;
        }
        proof {
            assert(orig.subrange(0, n as int) =~= orig);
        }
        Some(m)
    }

    /// The path/document entries of the index, for walking it.
    pub fn documents_entries(&self) -> (r: &Vec<(String, Document)>)
        ensures
            docs_view(r@) == self.docs(),
            r@.len() == self.doc_count(),
            self.wf() ==> keys_unique(r@) && forall|i: int|
                0 <= i < r@.len() ==> (#[trigger] r@[i]).1.inv(),
    {
        &self.documents
    }

    /// The term/frequency entries of the document-frequency map.
    pub fn df_entries(&self) -> (r: &Vec<(String, usize)>)
        ensures
            forall|t: Seq<char>| count_of(counts_view(r@), t) == self.df_of(t),
    {
        &self.df
    }
}

/// The set of paths of indexed documents that contain the term.
pub open spec fn docs_with_term(docs: Map<Seq<char>, DocView>, t: Seq<char>) -> Set<Seq<char>> {
    Set::new(|p: Seq<char>| docs.dom().contains(p) && docs[p].tf.dom().contains(t))
}

/// The document-frequency invariant as a law: in a well-formed index
/// the stored document frequency of every term equals the number of
/// indexed documents whose term-frequency map contains the term. It
/// holds after every `add` and `remove`, since both ensure
/// well-formedness.
pub proof fn lemma_document_frequency(m: &Model, t: Seq<char>)
    requires
        m.wf(),
    ensures
        m.df_of(t) == docs_with_term(m.docs(), t).len(),
{
    lemma_count_is_card(m.documents@, t);
}

/// The number of indexed documents equals the size of the document
/// map: paths are unique.
pub proof fn lemma_document_count(m: &Model)
    requires
        m.wf(),
    ensures
        m.docs().dom().finite(),
        m.doc_count() == m.docs().dom().len(),
{
    lemma_docs_len(m.documents@);
}

proof fn lemma_docs_len(s: Seq<(String, Document)>)
    requires
        keys_unique(s),
    ensures
        docs_view(s).dom().finite(),
        docs_view(s).dom().len() == s.len(),
    decreases s.len(),
{
    broadcast use vstd::set::group_set_axioms;

    if s.len() > 0 {
        let dl = s.drop_last();
        assert forall|i: int, j: int| 0 <= i < j < dl.len() implies (#[trigger] dl[i]).0@ != (
        #[trigger] dl[j]).0@ by {
            assert(dl[i] == s[i] && dl[j] == s[j]);
        }
        lemma_docs_len(dl);
        lemma_docs_contains(dl, s.last().0@);
        assert forall|i: int| 0 <= i < dl.len() implies (#[trigger] dl[i]).0@ != s.last().0@ by {
            assert(dl[i] == s[i]);
        }
        assert(!docs_view(dl).dom().contains(s.last().0@));
        assert(docs_view(s).dom() =~= docs_view(dl).dom().insert(s.last().0@));
    } else {
        assert(docs_view(s).dom() =~= Set::<Seq<char>>::empty());
    }
}

/// The document-frequency map is determined by the documents: two
/// well-formed indexes with the same document map agree on the
/// frequency of every term. In particular an index rebuilt with
/// `from_documents` from the entries of a well-formed index — in any
/// order — has the same frequencies as the index it was dumped from.
pub proof fn lemma_df_determined(m1: &Model, m2: &Model)
    requires
        m1.wf(),
        m2.wf(),
        m1.docs() == m2.docs(),
    ensures
        forall|t: Seq<char>| m1.df_of(t) == m2.df_of(t),
{
    assert forall|t: Seq<char>| m1.df_of(t) == m2.df_of(t) by {
        lemma_document_frequency(m1, t);
        lemma_document_frequency(m2, t);
    }
}

proof fn lemma_count_is_card(s: Seq<(String, Document)>, t: Seq<char>)
    requires
        keys_unique(s),
    ensures
        docs_with_term(docs_view(s), t).finite(),
        count_docs_with(s, t) == docs_with_term(docs_view(s), t).len(),
    decreases s.len(),
{
    broadcast use vstd::set::group_set_axioms;

    if s.len() == 0 {
        assert(docs_with_term(docs_view(s), t) =~= Set::<Seq<char>>::empty());
    } else {
        let dl = s.drop_last();
        assert forall|i: int, j: int| 0 <= i < j < dl.len() implies (#[trigger] dl[i]).0@ != (
        #[trigger] dl[j]).0@ by {
            assert(dl[i] == s[i] && dl[j] == s[j]);
        }
        lemma_count_is_card(dl, t);
        let p = s.last().0@;
        let d = s.last().1@;
        lemma_docs_contains(dl, p);
        assert forall|i: int| 0 <= i < dl.len() implies (#[trigger] dl[i]).0@ != p by {
            assert(dl[i] == s[i]);
        }
        assert(!docs_view(dl).dom().contains(p));
        let prev = docs_with_term(docs_view(dl), t);
        let cur = docs_with_term(docs_view(s), t);
        if d.tf.dom().contains(t) {
            assert(cur =~= prev.insert(p));
        } else {
            assert(cur =~= prev);
        }
    }
}

} // verus!
