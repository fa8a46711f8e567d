//! A prefix/fuzzy word finder: a trie over the characters of inserted
//! words, with optional case folding and a bounded miss budget for the
//! prefix search's backtracking.

use vstd::prelude::*;
use vstd::string::StrSliceExecFns;

verus! {

/// How many characters in a row the prefix search may skip by default.
pub const MISS_COUNT: usize = 3;

/// One trie node: child nodes keyed by character code, kept in strictly
/// ascending code order, and the values of the words ending here.
pub(crate) struct TrieNode<T> {
    pub(crate) children: Vec<(u32, TrieNode<T>)>,
    pub(crate) values: Vec<T>,
}

/// The position of the child stored under code `c`, or -1 if there is none.
pub(crate) open spec fn child_index<T>(cs: Seq<(u32, TrieNode<T>)>, c: u32) -> int
    decreases cs.len(),
{
    if cs.len() == 0 {
        -1
    } else if cs[0].0 == c {
        0
    } else {
        let r = child_index(cs.drop_first(), c);
        if r == -1 {
            -1
        } else {
            r + 1
        }
    }
}

/// A child found by scanning past `j` non-matching entries sits at `j`.
proof fn lemma_child_found<T>(cs: Seq<(u32, TrieNode<T>)>, c: u32, j: int)
    requires
        0 <= j < cs.len(),
        cs[j].0 == c,
        forall|k: int| 0 <= k < j ==> cs[k].0 != c,
    ensures
        child_index(cs, c) == j,
    decreases j,
{
    if j > 0 {
        lemma_child_found(cs.drop_first(), c, j - 1);
    }
}

/// A scan that matches no entry means there is no child under the code.
proof fn lemma_child_none<T>(cs: Seq<(u32, TrieNode<T>)>, c: u32)
    requires
        forall|k: int| 0 <= k < cs.len() ==> cs[k].0 != c,
    ensures
        child_index(cs, c) == -1,
    decreases cs.len(),
{
    if cs.len() > 0 {
        lemma_child_none(cs.drop_first(), c);
    }
}

/// A child scan never reports a position outside the list, and the
/// reported position carries the searched code.
proof fn lemma_child_index_bounds<T>(cs: Seq<(u32, TrieNode<T>)>, d: u32)
    ensures
        -1 <= child_index(cs, d) < cs.len(),
        child_index(cs, d) >= 0 ==> cs[child_index(cs, d)].0 == d,
    decreases cs.len(),
{
    if cs.len() > 0 && cs[0].0 != d {
        lemma_child_index_bounds(cs.drop_first(), d);
    }
}

/// Replacing the node of one child, keeping its code, moves no child's
/// position.
proof fn lemma_child_index_update<T>(cs: Seq<(u32, TrieNode<T>)>, pos: int, x: TrieNode<T>, d: u32)
    requires
        0 <= pos < cs.len(),
    ensures
        child_index(cs.update(pos, (cs[pos].0, x)), d) == child_index(cs, d),
    decreases cs.len(),
{
    let cs2 = cs.update(pos, (cs[pos].0, x));
    if pos == 0 {
        if cs[0].0 != d {
            assert(cs2.drop_first() =~= cs.drop_first());
        }
    } else {
        assert(cs2[0] == cs[0]);
        if cs[0].0 != d {
            assert(cs2.drop_first() =~= cs.drop_first().update(pos - 1, (cs[pos].0, x)));
            assert(cs.drop_first()[pos - 1] == cs[pos]);
            lemma_child_index_update(cs.drop_first(), pos - 1, x, d);
        }
    }
}

/// Inserting a child under a different code leaves every other code's
/// lookup result the same node, present or absent as before. The longer
/// list `cs2` is `cs` with one pair slotted in at `pos`.
proof fn lemma_child_index_insert<T>(
    cs: Seq<(u32, TrieNode<T>)>,
    cs2: Seq<(u32, TrieNode<T>)>,
    pos: int,
    d: u32,
)
    requires
        0 <= pos <= cs.len(),
        cs2.len() == cs.len() + 1,
        cs2[pos].0 != d,
        forall|k: int| 0 <= k < pos ==> cs2[k] == cs[k],
        forall|k: int| pos < k < cs2.len() ==> cs2[k] == cs[k - 1],
    ensures
        child_index(cs, d) == -1 ==> child_index(cs2, d) == -1,
        child_index(cs, d) >= 0 ==> 0 <= child_index(cs2, d) < cs2.len()
            && cs2[child_index(cs2, d)].1 == cs[child_index(cs, d)].1,
    decreases cs.len(),
{
    lemma_child_index_bounds(cs, d);
    lemma_child_index_bounds(cs2, d);
    if pos == 0 {
        assert(cs2.drop_first() =~= cs);
        assert(child_index(cs2, d) == if child_index(cs, d) == -1 {
            -1
        } else {
            child_index(cs, d) + 1
        });
        if child_index(cs, d) >= 0 {
            assert(cs2[child_index(cs, d) + 1] == cs[child_index(cs, d)]);
        }
    } else {
        assert(cs2[0] == cs[0]);
        if cs[0].0 == d {
            assert(child_index(cs, d) == 0);
            assert(child_index(cs2, d) == 0);
        } else {
            let ct = cs.drop_first();
            let ct2 = cs2.drop_first();
            assert(ct2[pos - 1] == cs2[pos]);
            assert forall|k: int| 0 <= k < pos - 1 implies ct2[k] == ct[k] by {
                assert(cs2[k + 1] == cs[k + 1]);
            }
            assert forall|k: int| pos - 1 < k < ct2.len() implies ct2[k] == ct[k - 1] by {
                assert(cs2[k + 1] == cs[k]);
            }
            lemma_child_index_bounds(ct, d);
            lemma_child_index_bounds(ct2, d);
            lemma_child_index_insert(ct, ct2, pos - 1, d);
            assert(child_index(cs, d) == if child_index(ct, d) == -1 {
                -1
            } else {
                child_index(ct, d) + 1
            });
            assert(child_index(cs2, d) == if child_index(ct2, d) == -1 {
                -1
            } else {
                child_index(ct2, d) + 1
            });
            if child_index(ct, d) >= 0 {
                assert(cs2[child_index(ct2, d) + 1] == ct2[child_index(ct2, d)]);
                assert(cs[child_index(ct, d) + 1] == ct[child_index(ct, d)]);
            }
        }
    }
}

/// A match state of the backtracking prefix search: how many query
/// characters are consumed, and how many trie characters were skipped in a
/// row since the last match.
pub open spec fn state_complete(states: Seq<(usize, usize)>, wlen: int) -> bool {
    exists|k: int| 0 <= k < states.len() && states[k].0 == wlen
}

/// How one match state moves over a trie edge labelled `c`: a matching
/// query character is consumed with the skip count reset, and within the
/// budget the edge may also be skipped without consuming.
pub open spec fn state_step(st: (usize, usize), c: u32, word: Seq<u32>, budget: usize) -> Seq<
    (usize, usize),
> {
    (if st.0 < word.len() && word[st.0 as int] == c {
        seq![(((st.0 + 1) as usize), 0usize)]
    } else {
        Seq::empty()
    }) + (if st.1 < budget {
        seq![(st.0, ((st.1 + 1) as usize))]
    } else {
        Seq::empty()
    })
}

/// All match states after moving over a trie edge labelled `c`.
pub open spec fn states_step(
    states: Seq<(usize, usize)>,
    c: u32,
    word: Seq<u32>,
    budget: usize,
) -> Seq<(usize, usize)>
    decreases states.len(),
{
    if states.len() == 0 {
        Seq::empty()
    } else {
        states_step(states.drop_last(), c, word, budget) + state_step(
            states.last(),
            c,
            word,
            budget,
        )
    }
}

/// The match states after following a whole trie path `u` from the given
/// states, edge by edge.
pub open spec fn states_along(
    states: Seq<(usize, usize)>,
    w: Seq<u32>,
    u: Seq<u32>,
    budget: usize,
) -> Seq<(usize, usize)>
    decreases u.len(),
{
    if u.len() == 0 {
        states
    } else {
        states_step(states_along(states, w, u.drop_last(), budget), u.last(), w, budget)
    }
}

/// Whether the query is consumed at some node on the path `u`, starting
/// from the given states, or coverage was already established.
pub open spec fn matched_from(
    states: Seq<(usize, usize)>,
    covered: bool,
    w: Seq<u32>,
    u: Seq<u32>,
    budget: usize,
) -> bool {
    covered || exists|j: int|
        0 <= j <= u.len() && state_complete(
            #[trigger] states_along(states, w, u.take(j), budget),
            w.len() as int,
        )
}

/// Whether the fuzzy prefix search for query `w` reaches the word `u`:
/// the query is consumed somewhere along `u`'s path, matching characters
/// in order and skipping at most `budget` trie characters in a row.
pub open spec fn fuzzy_matches(w: Seq<u32>, u: Seq<u32>, budget: usize) -> bool {
    matched_from(seq![(0usize, 0usize)], false, w, u, budget)
}

/// Following a path is the same as taking its first edge and following
/// the rest.
proof fn lemma_states_along_front(
    states: Seq<(usize, usize)>,
    w: Seq<u32>,
    c: u32,
    ys: Seq<u32>,
    budget: usize,
)
    ensures
        states_along(states, w, seq![c] + ys, budget) == states_along(
            states_step(states, c, w, budget),
            w,
            ys,
            budget,
        ),
    decreases ys.len(),
{
    let u = seq![c] + ys;
    let states2 = states_step(states, c, w, budget);
    if ys.len() == 0 {
        assert(u.drop_last() =~= Seq::<u32>::empty());
        assert(u.last() == c);
        assert(ys =~= Seq::<u32>::empty());
        assert(states_along(states, w, u.drop_last(), budget) == states);
        assert(states_along(states, w, u, budget) == states2);
        assert(states_along(states2, w, ys, budget) == states2);
    } else {
        assert(u.drop_last() =~= seq![c] + ys.drop_last());
        assert(u.last() == ys.last());
        lemma_states_along_front(states, w, c, ys.drop_last(), budget);
        assert(states_along(states, w, u, budget) == states_step(
            states_along(states, w, u.drop_last(), budget),
            ys.last(),
            w,
            budget,
        ));
        assert(states_along(states2, w, ys, budget) == states_step(
            states_along(states2, w, ys.drop_last(), budget),
            ys.last(),
            w,
            budget,
        ));
    }
}

/// Matching along a path decomposes into one edge step followed by
/// matching along the rest, with coverage updated at the first node.
proof fn lemma_matched_from_step(
    states: Seq<(usize, usize)>,
    covered: bool,
    w: Seq<u32>,
    c: u32,
    ys: Seq<u32>,
    budget: usize,
)
    ensures
        matched_from(states, covered, w, seq![c] + ys, budget) == matched_from(
            states_step(states, c, w, budget),
            covered || state_complete(states, w.len() as int),
            w,
            ys,
            budget,
        ),
{
    let u = seq![c] + ys;
    let cov = covered || state_complete(states, w.len() as int);
    let states2 = states_step(states, c, w, budget);
    if matched_from(states, covered, w, u, budget) && !cov {
        let j = choose|j: int|
            0 <= j <= u.len() && state_complete(
                #[trigger] states_along(states, w, u.take(j), budget),
                w.len() as int,
            );
        if j == 0 {
            assert(u.take(0) =~= Seq::<u32>::empty());
        } else {
            assert(u.take(j) =~= seq![c] + ys.take(j - 1));
            lemma_states_along_front(states, w, c, ys.take(j - 1), budget);
            assert(state_complete(
                states_along(states2, w, ys.take(j - 1), budget),
                w.len() as int,
            ));
        }
    }
    if matched_from(states2, cov, w, ys, budget) {
        if cov {
            if !covered {
                assert(u.take(0) =~= Seq::<u32>::empty());
                assert(state_complete(states_along(states, w, u.take(0), budget), w.len() as int));
            }
        } else {
            let j = choose|j: int|
                0 <= j <= ys.len() && state_complete(
                    #[trigger] states_along(states2, w, ys.take(j), budget),
                    w.len() as int,
                );
            assert(u.take(j + 1) =~= seq![c] + ys.take(j));
            lemma_states_along_front(states, w, c, ys.take(j), budget);
            assert(state_complete(states_along(states, w, u.take(j + 1), budget), w.len() as int));
        }
    }
}

impl<T> TrieNode<T> {
    /// Well-formed trie: children strictly ascending in their codes (each
    /// code at most once), and every child subtree well-formed.
    spec fn wf(self) -> bool
        decreases self,
    {
        &&& (forall|a: int, b: int|
            0 <= a < b < self.children@.len() ==> self.children@[a].0 < self.children@[b].0)
        &&& (forall|j: int|
            0 <= j < self.children@.len() ==> (#[trigger] self.children@[j].1).wf())
    }

    /// The values stored under the given word suffix below this node.
    pub(crate) open spec fn found(self, w: Seq<u32>) -> Seq<T>
        decreases w.len(),
    {
        if w.len() == 0 {
            self.values@
        } else {
            let ci = child_index(self.children@, w[0]);
            if ci == -1 {
                Seq::empty()
            } else {
                self.children@[ci].1.found(w.drop_first())
            }
        }
    }

    /// The result of the fuzzy prefix search below this node: a node whose
    /// path consumed the whole query (or any of its descendants) is covered,
    /// and each covered node's values are taken exactly once, in depth-first
    /// order with children visited in ascending code order.
    pub(crate) open spec fn spec_sweep(
        self,
        word: Seq<u32>,
        states: Seq<(usize, usize)>,
        covered: bool,
        budget: usize,
    ) -> Seq<T>
        decreases self,
    {
        let cov = covered || state_complete(states, word.len() as int);
        (if cov {
            self.values@
        } else {
            Seq::empty()
        }) + spec_sweep_list(self.children@, word, states, cov, budget)
    }
}

impl<T: Copy> TrieNode<T> {
    /// Descends along the word suffix starting at `i`, returning the
    /// values of the node it ends at, or nothing when a link is missing.
    fn search_rec(&self, word: &Vec<u32>, i: usize) -> (r: Vec<T>)
        requires
            i <= word@.len(),
        ensures
            r@ == self.found(word@.skip(i as int)),
        decreases word@.len() - i,
    {
        let ghost w = word@.skip(i as int);
        if i == word.len() {
            let mut out: Vec<T> = Vec::new();
            let n = self.values.len();
            let mut k: usize = 0;
            while k < n
                invariant
                    n == self.values@.len(),
                    k <= n,
                    out@ == self.values@.take(k as int),
                decreases n - k,
            {
                out.push(self.values[k]);
                proof {
                    assert(out@ =~= self.values@.take(k + 1));
                }
                k = k + 1;
            }
            proof {
                assert(self.values@.take(n as int) =~= self.values@);
            }
            out
        } else {
            let c = word[i];
            proof {
                assert(w[0] == c);
                assert(w.drop_first() =~= word@.skip(i as int + 1));
            }
            let n = self.children.len();
            let mut j: usize = 0;
            let mut at: usize = n;
            while j < n
                invariant
                    j <= n,
                    at <= n,
                    n == self.children@.len(),
                    at == n || j == n,
                    at < n ==> self.children@[at as int].0 == c && (forall|k: int|
                        0 <= k < at ==> self.children@[k].0 != c),
                    at == n ==> forall|k: int| 0 <= k < j ==> self.children@[k].0 != c,
                decreases n - j,
            {
                if self.children[j].0 == c {
                    at = j;
                    j = n;
                } else {
                    j = j + 1;
                }
            }
            if at < n {
                proof {
                    lemma_child_found(self.children@, c, at as int);
                }
                let child = &self.children[at].1;
                child.search_rec(word, i + 1)
            } else {
                proof {
                    lemma_child_none(self.children@, c);
                    assert(self.found(w) =~= Seq::<T>::empty());
                }
                Vec::new()
            }
        }
    }

}

/// The fuzzy prefix search over a list of children, in order.
pub(crate) open spec fn spec_sweep_list<T>(
    cs: Seq<(u32, TrieNode<T>)>,
    word: Seq<u32>,
    states: Seq<(usize, usize)>,
    covered: bool,
    budget: usize,
) -> Seq<T>
    decreases cs,
{
    if cs.len() == 0 {
        Seq::empty()
    } else {
        spec_sweep_list(cs.drop_last(), word, states, covered, budget) + cs[cs.len()
            - 1].1.spec_sweep(word, states_step(states, cs[cs.len() - 1].0, word, budget), covered, budget)
    }
}

/// One instance of the gain law: for this query and starting position,
/// where the query fuzzily matches the path `u` the new sweep is the old
/// one with `value` inserted at one position, and otherwise unchanged.
pub(crate) open spec fn sweep_gain_one<T>(
    told: TrieNode<T>,
    tnew: TrieNode<T>,
    u: Seq<u32>,
    value: T,
    w: Seq<u32>,
    states: Seq<(usize, usize)>,
    covered: bool,
    budget: usize,
) -> bool {
    let before = told.spec_sweep(w, states, covered, budget);
    let after = tnew.spec_sweep(w, states, covered, budget);
    if matched_from(states, covered, w, u, budget) {
        exists|p: int| 0 <= p <= before.len() && after == before.take(p).push(value) + before.skip(p)
    } else {
        after == before
    }
}

/// The one way an insertion along the path `u` changes the fuzzy prefix
/// search, for every query and starting position at once.
pub(crate) open spec fn sweep_gains_at<T>(
    told: TrieNode<T>,
    tnew: TrieNode<T>,
    u: Seq<u32>,
    value: T,
) -> bool {
    forall|w: Seq<u32>, states: Seq<(usize, usize)>, covered: bool, budget: usize|
        #[trigger] sweep_gain_one(told, tnew, u, value, w, states, covered, budget)
}

/// The sweep of a child list splits at any position into the sweep of the
/// two halves.
proof fn lemma_sweep_list_split<T>(
    cs: Seq<(u32, TrieNode<T>)>,
    p: int,
    w: Seq<u32>,
    states: Seq<(usize, usize)>,
    covered: bool,
    budget: usize,
)
    requires
        0 <= p <= cs.len(),
    ensures
        spec_sweep_list(cs, w, states, covered, budget) == spec_sweep_list(
            cs.take(p),
            w,
            states,
            covered,
            budget,
        ) + spec_sweep_list(cs.skip(p), w, states, covered, budget),
    decreases cs.len(),
{
    if p == cs.len() {
        assert(cs.take(p) =~= cs);
        assert(cs.skip(p) =~= Seq::<(u32, TrieNode<T>)>::empty());
        assert(spec_sweep_list(cs.skip(p), w, states, covered, budget) == Seq::<T>::empty());
        assert(spec_sweep_list(cs, w, states, covered, budget) + Seq::<T>::empty()
            =~= spec_sweep_list(cs, w, states, covered, budget));
    } else {
        let ct = cs.drop_last();
        lemma_sweep_list_split(ct, p, w, states, covered, budget);
        assert(ct.take(p) =~= cs.take(p));
        assert(cs.skip(p).drop_last() =~= ct.skip(p));
        assert(cs.skip(p).len() > 0);
        assert(cs.skip(p)[cs.skip(p).len() - 1] == cs[cs.len() - 1]);
        assert(spec_sweep_list(cs.skip(p), w, states, covered, budget) == spec_sweep_list(
            ct.skip(p),
            w,
            states,
            covered,
            budget,
        ) + cs[cs.len() - 1].1.spec_sweep(
            w,
            states_step(states, cs[cs.len() - 1].0, w, budget),
            covered,
            budget,
        ));
        assert(spec_sweep_list(cs, w, states, covered, budget) =~= spec_sweep_list(
            cs.take(p),
            w,
            states,
            covered,
            budget,
        ) + spec_sweep_list(cs.skip(p), w, states, covered, budget));
    }
}

/// Appending a value to this node's own values changes the sweep exactly
/// as an insertion of the empty path does: the value appears at the end of
/// this node's contribution wherever the node is covered.
proof fn lemma_sweep_gains_here<T>(told: TrieNode<T>, tnew: TrieNode<T>, value: T)
    requires
        tnew.children@ == told.children@,
        tnew.values@ == told.values@.push(value),
    ensures
        sweep_gains_at(told, tnew, Seq::empty(), value),
{
    assert forall|w: Seq<u32>, states: Seq<(usize, usize)>, covered: bool, budget: usize|
        sweep_gain_one(told, tnew, Seq::empty(), value, w, states, covered, budget) by {
        let cov = covered || state_complete(states, w.len() as int);
        let lb = spec_sweep_list(told.children@, w, states, cov, budget);
        let before = told.spec_sweep(w, states, covered, budget);
        let after = tnew.spec_sweep(w, states, covered, budget);
        let u = Seq::<u32>::empty();
        assert(u.take(0) =~= u);
        assert(states_along(states, w, u, budget) == states);
        if matched_from(states, covered, w, u, budget) {
            if !covered {
                let j = choose|j: int|
                    0 <= j <= u.len() && state_complete(
                        #[trigger] states_along(states, w, u.take(j), budget),
                        w.len() as int,
                    );
                assert(u.take(j) =~= u);
            }
            assert(cov);
            let p = told.values@.len() as int;
            assert(before == told.values@ + lb);
            assert(after == tnew.values@ + lb);
            assert(before.take(p) =~= told.values@);
            assert(before.skip(p) =~= lb);
            assert(after =~= before.take(p).push(value) + before.skip(p));
        } else {
            assert(!cov);
            assert(before == Seq::<T>::empty() + lb);
            assert(after == Seq::<T>::empty() + lb);
        }
    }
}

/// Shared shape of the two child-change lemmas: the node's sweep around
/// position `pos` decomposes into the part before, the changed child's
/// own sweep, and the part after.
proof fn lemma_sweep_gains_assemble<T>(
    told: TrieNode<T>,
    tnew: TrieNode<T>,
    pos: int,
    c: u32,
    rest: Seq<u32>,
    child0: TrieNode<T>,
    value: T,
    w: Seq<u32>,
    states: Seq<(usize, usize)>,
    covered: bool,
    budget: usize,
    a0: Seq<T>,
    b0: Seq<T>,
)
    requires
        tnew.values@ == told.values@,
        0 <= pos < tnew.children@.len(),
        tnew.children@[pos].0 == c,
        sweep_gains_at(child0, tnew.children@[pos].1, rest, value),
        ({
            let cov = covered || state_complete(states, w.len() as int);
            let states2 = states_step(states, c, w, budget);
            let cb = child0.spec_sweep(w, states2, cov, budget);
            &&& spec_sweep_list(told.children@, w, states, cov, budget) == a0 + (cb + b0)
            &&& spec_sweep_list(tnew.children@, w, states, cov, budget) == a0 + (
            tnew.children@[pos].1.spec_sweep(w, states2, cov, budget) + b0)
        }),
    ensures
        sweep_gain_one(told, tnew, seq![c] + rest, value, w, states, covered, budget),
{
    let u = seq![c] + rest;
    let childf = tnew.children@[pos].1;
    let cov = covered || state_complete(states, w.len() as int);
    let states2 = states_step(states, c, w, budget);
    lemma_matched_from_step(states, covered, w, c, rest, budget);
    let cb = child0.spec_sweep(w, states2, cov, budget);
    let ca = childf.spec_sweep(w, states2, cov, budget);
    assert(sweep_gain_one(child0, childf, rest, value, w, states2, cov, budget));
    let before = told.spec_sweep(w, states, covered, budget);
    let after = tnew.spec_sweep(w, states, covered, budget);
    let vpart = if cov {
        told.values@
    } else {
        Seq::<T>::empty()
    };
    assert(before == vpart + (a0 + (cb + b0)));
    assert(after == vpart + (a0 + (ca + b0)));
    if matched_from(states, covered, w, u, budget) {
        assert(matched_from(states2, cov, w, rest, budget));
        let q = choose|q: int| 0 <= q <= cb.len() && ca == cb.take(q).push(value) + cb.skip(q);
        let p = vpart.len() + a0.len() + q;
        assert(before.take(p) =~= vpart + a0 + cb.take(q));
        assert(before.skip(p) =~= cb.skip(q) + b0);
        assert(after =~= before.take(p).push(value) + before.skip(p));
        assert(0 <= p <= before.len());
    } else {
        assert(!matched_from(states2, cov, w, rest, budget));
        assert(ca == cb);
        assert(after =~= before);
    }
}

/// Replacing one child, keeping its code, where the child's own sweep
/// gains the value along the remaining path: the node's sweep gains the
/// value along the path extended by the child's code.
#[verifier::spinoff_prover]
#[verifier::rlimit(100)]
proof fn lemma_sweep_gains_replace<T>(
    told: TrieNode<T>,
    tnew: TrieNode<T>,
    pos: int,
    c: u32,
    rest: Seq<u32>,
    child0: TrieNode<T>,
    value: T,
)
    requires
        tnew.values@ == told.values@,
        0 <= pos < tnew.children@.len(),
        tnew.children@[pos].0 == c,
        sweep_gains_at(child0, tnew.children@[pos].1, rest, value),
        tnew.children@.len() == told.children@.len(),
        told.children@[pos] == (c, child0),
        forall|k: int|
            0 <= k < tnew.children@.len() && k != pos ==> tnew.children@[k] == told.children@[k],
    ensures
        sweep_gains_at(told, tnew, seq![c] + rest, value),
{
    let cs0 = told.children@;
    let cs2 = tnew.children@;
    assert forall|w: Seq<u32>, states: Seq<(usize, usize)>, covered: bool, budget: usize|
        sweep_gain_one(told, tnew, seq![c] + rest, value, w, states, covered, budget) by {
        let cov = covered || state_complete(states, w.len() as int);
        let states2 = states_step(states, c, w, budget);
        let ca = cs2[pos].1.spec_sweep(w, states2, cov, budget);
        let cb = child0.spec_sweep(w, states2, cov, budget);
        let a0 = spec_sweep_list(cs0.take(pos), w, states, cov, budget);
        let b0 = spec_sweep_list(cs0.skip(pos + 1), w, states, cov, budget);
        assert(spec_sweep_list(Seq::<(u32, TrieNode<T>)>::empty(), w, states, cov, budget)
            == Seq::<T>::empty());
        lemma_sweep_list_split(cs2, pos, w, states, cov, budget);
        lemma_sweep_list_split(cs2.skip(pos), 1, w, states, cov, budget);
        assert(cs2.skip(pos).take(1) =~= seq![cs2[pos]]);
        assert(seq![cs2[pos]].drop_last() =~= Seq::<(u32, TrieNode<T>)>::empty());
        assert(seq![cs2[pos]][0] == cs2[pos]);
        assert(spec_sweep_list(seq![cs2[pos]], w, states, cov, budget) =~= ca);
        assert(cs2.skip(pos).skip(1) =~= cs2.skip(pos + 1));
        lemma_sweep_list_split(cs0, pos, w, states, cov, budget);
        lemma_sweep_list_split(cs0.skip(pos), 1, w, states, cov, budget);
        assert(cs0.skip(pos).take(1) =~= seq![cs0[pos]]);
        assert(seq![cs0[pos]].drop_last() =~= Seq::<(u32, TrieNode<T>)>::empty());
        assert(seq![cs0[pos]][0] == cs0[pos]);
        assert(spec_sweep_list(seq![cs0[pos]], w, states, cov, budget) =~= cb);
        assert(cs0.skip(pos).skip(1) =~= cs0.skip(pos + 1));
        assert(cs2.take(pos) =~= cs0.take(pos));
        assert(cs2.skip(pos + 1) =~= cs0.skip(pos + 1));
        assert(spec_sweep_list(cs0, w, states, cov, budget) == a0 + (cb + b0));
        assert(spec_sweep_list(cs2, w, states, cov, budget) == a0 + (ca + b0));
        lemma_sweep_gains_assemble(
            told,
            tnew,
            pos,
            c,
            rest,
            child0,
            value,
            w,
            states,
            covered,
            budget,
            a0,
            b0,
        );
    }
}

/// Slotting in one new child, where the new child's own sweep gains the
/// value along the remaining path over an empty start: the node's sweep
/// gains the value along the path extended by the child's code.
#[verifier::spinoff_prover]
#[verifier::rlimit(100)]
proof fn lemma_sweep_gains_insert<T>(
    told: TrieNode<T>,
    tnew: TrieNode<T>,
    pos: int,
    c: u32,
    rest: Seq<u32>,
    child0: TrieNode<T>,
    value: T,
)
    requires
        tnew.values@ == told.values@,
        0 <= pos < tnew.children@.len(),
        tnew.children@[pos].0 == c,
        sweep_gains_at(child0, tnew.children@[pos].1, rest, value),
        tnew.children@.len() == told.children@.len() + 1,
        forall|k: int| 0 <= k < pos ==> tnew.children@[k] == told.children@[k],
        forall|k: int| pos < k < tnew.children@.len() ==> tnew.children@[k] == told.children@[k - 1],
        child0.values@.len() == 0,
        child0.children@.len() == 0,
    ensures
        sweep_gains_at(told, tnew, seq![c] + rest, value),
{
    let cs0 = told.children@;
    let cs2 = tnew.children@;
    assert forall|w: Seq<u32>, states: Seq<(usize, usize)>, covered: bool, budget: usize|
        sweep_gain_one(told, tnew, seq![c] + rest, value, w, states, covered, budget) by {
        let cov = covered || state_complete(states, w.len() as int);
        let states2 = states_step(states, c, w, budget);
        let ca = cs2[pos].1.spec_sweep(w, states2, cov, budget);
        let cb = child0.spec_sweep(w, states2, cov, budget);
        let a0 = spec_sweep_list(cs0.take(pos), w, states, cov, budget);
        let b0 = spec_sweep_list(cs0.skip(pos), w, states, cov, budget);
        assert(spec_sweep_list(Seq::<(u32, TrieNode<T>)>::empty(), w, states, cov, budget)
            == Seq::<T>::empty());
        lemma_sweep_list_split(cs2, pos, w, states, cov, budget);
        lemma_sweep_list_split(cs2.skip(pos), 1, w, states, cov, budget);
        assert(cs2.skip(pos).take(1) =~= seq![cs2[pos]]);
        assert(seq![cs2[pos]].drop_last() =~= Seq::<(u32, TrieNode<T>)>::empty());
        assert(seq![cs2[pos]][0] == cs2[pos]);
        assert(spec_sweep_list(seq![cs2[pos]], w, states, cov, budget) =~= ca);
        assert(cs2.skip(pos).skip(1) =~= cs2.skip(pos + 1));
        lemma_sweep_list_split(cs0, pos, w, states, cov, budget);
        assert(cs2.take(pos) =~= cs0.take(pos));
        assert(cs2.skip(pos + 1) =~= cs0.skip(pos));
        // the phantom old child is empty, so its sweep is empty
        assert(child0.children@ =~= Seq::<(u32, TrieNode<T>)>::empty());
        assert(child0.values@ =~= Seq::<T>::empty());
        assert(cb =~= Seq::<T>::empty());
        assert(spec_sweep_list(cs0, w, states, cov, budget) == a0 + (cb + b0)) by {
            assert(a0 + (cb + b0) =~= a0 + b0);
        }
        assert(spec_sweep_list(cs2, w, states, cov, budget) == a0 + (ca + b0));
        lemma_sweep_gains_assemble(
            told,
            tnew,
            pos,
            c,
            rest,
            child0,
            value,
            w,
            states,
            covered,
            budget,
            a0,
            b0,
        );
    }
}

/// Moves every live match state over an edge labelled `c`.
fn advance_states(states: &Vec<(usize, usize)>, c: u32, word: &Vec<u32>, budget: usize) -> (r: Vec<
    (usize, usize),
>)
    requires
        forall|k: int|
            0 <= k < states@.len() ==> (#[trigger] states@[k]).0 <= word@.len() && states@[k].1
                <= budget,
    ensures
        r@ == states_step(states@, c, word@, budget),
        forall|k: int|
            0 <= k < r@.len() ==> (#[trigger] r@[k]).0 <= word@.len() && r@[k].1 <= budget,
    decreases word@.len(),
{
    let mut out: Vec<(usize, usize)> = Vec::new();
    let n = states.len();
    let wlen = word.len();
    let mut k: usize = 0;
    proof {
        assert(states@.take(0) =~= Seq::<(usize, usize)>::empty());
    }
    while k < n
        invariant
            k <= n,
            n == states@.len(),
            wlen == word@.len(),
            forall|q: int|
                0 <= q < states@.len() ==> (#[trigger] states@[q]).0 <= word@.len()
                    && states@[q].1 <= budget,
            out@ == states_step(states@.take(k as int), c, word@, budget),
            forall|q: int|
                0 <= q < out@.len() ==> (#[trigger] out@[q]).0 <= word@.len() && out@[q].1
                    <= budget,
        decreases n - k,
    {
        let st = states[k];
        let ghost out0 = out@;
        if st.0 < wlen && word[st.0] == c {
            out.push((st.0 + 1, 0));
        }
        if st.1 < budget {
            out.push((st.0, st.1 + 1));
        }
        proof {
            assert(out@ =~= out0 + state_step(st, c, word@, budget));
            assert(states@.take(k + 1).drop_last() =~= states@.take(k as int));
            assert(states@.take(k + 1).last() == st);
            assert(out@ =~= states_step(states@.take(k + 1), c, word@, budget));
        }
        k = k + 1;
    }
    proof {
        assert(states@.take(n as int) =~= states@);
    }
    out
}

impl<T: Copy> TrieNode<T> {
    /// The backtracking prefix search: walks the whole trie once, moving
    /// the match states over each edge; from the first node where the query
    /// is consumed, everything below is collected, each node's values once.
    fn sweep(
        &self,
        word: &Vec<u32>,
        states: &Vec<(usize, usize)>,
        covered: bool,
        budget: usize,
        out: &mut Vec<T>,
    )
        requires
            forall|k: int|
                0 <= k < states@.len() ==> (#[trigger] states@[k]).0 <= word@.len()
                    && states@[k].1 <= budget,
        ensures
            final(out)@ == old(out)@ + self.spec_sweep(word@, states@, covered, budget),
        decreases self,
    {
        let ghost base = out@;
        let wlen = word.len();
        let mut cov = covered;
        if !cov {
            let n = states.len();
            let mut k: usize = 0;
            let mut hit = false;
            while k < n
                invariant
                    k <= n,
                    n == states@.len(),
                    wlen == word@.len(),
                    hit ==> state_complete(states@, word@.len() as int),
                    !hit ==> forall|q: int| 0 <= q < k ==> (#[trigger] states@[q]).0
                        != word@.len(),
                decreases n - k,
            {
                if states[k].0 == wlen {
                    proof {
                        assert(states@[k as int].0 == word@.len());
                    }
                    hit = true;
                    k = n;
                } else {
                    k = k + 1;
                }
            }
            cov = hit;
            proof {
                assert(cov == state_complete(states@, word@.len() as int));
            }
        }
        let ghost cov0 = cov;
        proof {
            assert(cov0 == (covered || state_complete(states@, word@.len() as int)));
        }
        if cov {
            let n = states.len();
            let m = self.values.len();
            let mut k: usize = 0;
            while k < m
                invariant
                    k <= m,
                    m == self.values@.len(),
                    out@ == base + self.values@.take(k as int),
                decreases m - k,
            {
                out.push(self.values[k]);
                proof {
                    assert(out@ =~= base + self.values@.take(k + 1));
                }
                k = k + 1;
            }
            proof {
                assert(self.values@.take(m as int) =~= self.values@);
            }
        }
        let ghost vpart = if cov0 {
            self.values@
        } else {
            Seq::<T>::empty()
        };
        proof {
            assert(out@ =~= base + vpart);
            assert(spec_sweep_list(
                self.children@.take(0),
                word@,
                states@,
                cov0,
                budget,
            ) =~= Seq::<T>::empty()) by {
                assert(self.children@.take(0) =~= Seq::<(u32, TrieNode<T>)>::empty());
            }
        }
        let m = self.children.len();
        let mut j: usize = 0;
        while j < m
            invariant
                j <= m,
                m == self.children@.len(),
                wlen == word@.len(),
                cov == cov0,
                forall|k: int|
                    0 <= k < states@.len() ==> (#[trigger] states@[k]).0 <= word@.len()
                        && states@[k].1 <= budget,
                out@ == base + vpart + spec_sweep_list(
                    self.children@.take(j as int),
                    word@,
                    states@,
                    cov0,
                    budget,
                ),
            decreases m - j,
        {
            let c = self.children[j].0;
            let cstates = advance_states(states, c, word, budget);
            let ghost out0 = out@;
            let child = &self.children[j].1;
            child.sweep(word, &cstates, cov, budget, out);
            proof {
                assert(self.children@.take(j + 1).drop_last() =~= self.children@.take(j as int));
                assert(self.children@.take(j + 1)[j as int] == self.children@[j as int]);
                assert(out@ =~= base + vpart + spec_sweep_list(
                    self.children@.take(j + 1),
                    word@,
                    states@,
                    cov0,
                    budget,
                ));
            }
            j = j + 1;
        }
        proof {
            assert(self.children@.take(m as int) =~= self.children@);
            assert(out@ =~= base + self.spec_sweep(word@, states@, covered, budget));
        }
    }

    /// Inserts a value under the word suffix starting at `i`, creating the

    /// missing tail of the path: the suffix's stored values gain this value
    /// at the end, every other suffix keeps its values, and the trie stays
    /// well-formed.
    #[verifier::rlimit(80)]
    fn insert_rec(&mut self, word: &Vec<u32>, i: usize, value: T)
        requires
            i <= word@.len(),
            old(self).wf(),
        ensures
            final(self).wf(),
            final(self).found(word@.skip(i as int)) == old(self).found(
                word@.skip(i as int),
            ).push(value),
            forall|w2: Seq<u32>|
                w2 != word@.skip(i as int) ==> final(self).found(w2) == old(self).found(w2),
            sweep_gains_at(*old(self), *final(self), word@.skip(i as int), value),
        decreases word@.len() - i,
    {
        let ghost s0 = *self;
        let ghost w = word@.skip(i as int);
        if i == word.len() {
            self.values.push(value);
            proof {
                assert(self.found(w) == s0.found(w).push(value));
                assert forall|w2: Seq<u32>| w2 != w implies self.found(w2) == s0.found(w2) by {
                    if w2.len() == 0 {
                        assert(w2 =~= w);
                    }
                }
                lemma_sweep_gains_here(s0, *self, value);
                assert(w =~= Seq::<u32>::empty());
            }
        } else {
            let c = word[i];
            let ghost rest = word@.skip(i as int + 1);
            proof {
                assert(w.len() > 0 && w[0] == c);
                assert(w.drop_first() =~= rest);
            }
            let n = self.children.len();
            let mut pos: usize = 0;
            while pos < n && self.children[pos].0 < c
                invariant
                    pos <= n,
                    n == self.children@.len(),
                    forall|k: int| 0 <= k < pos ==> self.children@[k].0 < c,
                decreases n - pos,
            {
                pos = pos + 1;
            }
            let found = pos < n && self.children[pos].0 == c;
            proof {
                if !found {
                    assert forall|k: int|
                        0 <= k < self.children@.len() implies self.children@[k].0 != c by {
                        if k == pos {
                        } else if k > pos {
                            assert(self.children@[pos as int].0 < self.children@[k].0);
                        }
                    }
                    lemma_child_none(self.children@, c);
                }
            }
            let mut pair = if found {
                self.children.remove(pos)
            } else {
                (c, TrieNode { children: Vec::new(), values: Vec::new() })
            };
            let ghost child0 = pair.1;
            proof {
                if !found {
                    assert(child0.wf());
                    assert forall|r2: Seq<u32>| child0.found(r2) == Seq::<T>::empty() by {
                        if r2.len() > 0 {
                            assert(child_index(child0.children@, r2[0]) == -1);
                        }
                        assert(child0.found(r2) =~= Seq::<T>::empty());
                    }
                }
            }
            pair.1.insert_rec(word, i + 1, value);
            let ghost childf = pair.1;
            self.children.insert(pos, pair);
            proof {
                let cs0 = s0.children@;
                let csf = self.children@;
                if found {
                    assert(csf =~= cs0.update(pos as int, (c, childf)));
                } else {
                    assert(csf =~= cs0.insert(pos as int, (c, childf)));
                    assert(csf.len() == cs0.len() + 1);
                    assert(csf[pos as int] == (c, childf));
                    assert forall|k: int| 0 <= k < pos implies csf[k] == cs0[k] by {}
                    assert forall|k: int| pos < k < csf.len() implies csf[k] == cs0[k - 1] by {}
                }
                // the trie stays well-formed
                assert forall|a: int, b: int| 0 <= a < b < csf.len() implies csf[a].0
                    < csf[b].0 by {
                    if found {
                    } else {
                        if b == pos {
                        } else if a == pos {
                            if b - 1 >= pos {
                                if cs0[b - 1].0 == c {
                                } else if pos < cs0.len() && (b - 1) > pos {
                                    assert(cs0[pos as int].0 < cs0[b - 1].0);
                                }
                            }
                        }
                    }
                }
                assert forall|j: int| 0 <= j < csf.len() implies (#[trigger] csf[j].1).wf() by {
                    if j != pos {
                    }
                }
                assert(self.values@ == s0.values@);
                // the inserted suffix gains the value
                assert forall|k: int| 0 <= k < pos implies csf[k].0 != c by {}
                lemma_child_found(csf, c, pos as int);
                assert(self.found(w) == childf.found(rest));
                if found {
                    lemma_child_found(cs0, c, pos as int);
                    assert(s0.found(w) == child0.found(rest));
                } else {
                    assert(s0.found(w) == Seq::<T>::empty());
                    assert(child0.found(rest) == Seq::<T>::empty());
                }
                assert(self.found(w) == s0.found(w).push(value));
                // every other suffix is unchanged
                assert forall|w2: Seq<u32>| w2 != w implies self.found(w2) == s0.found(w2) by {
                    if w2.len() == 0 {
                        assert(self.found(w2) == self.values@);
                        assert(s0.found(w2) == s0.values@);
                    } else {
                        let d = w2[0];
                        let r2 = w2.drop_first();
                        lemma_child_index_bounds(cs0, d);
                        lemma_child_index_bounds(csf, d);
                        if d == c {
                            assert(r2 != rest) by {
                                if r2 == rest {
                                    assert(w2.len() == w.len());
                                    assert(w2[0] == w[0]);
                                    assert(forall|k: int| 0 < k < w2.len() ==> w2[k] == r2[k - 1]);
                                    assert(forall|k: int| 0 < k < w.len() ==> w[k] == rest[k - 1]);
                                    assert(w2 =~= w);
                                }
                            }
                            assert(child_index(csf, c) == pos);
                            assert(self.found(w2) == childf.found(r2));
                            assert(childf.found(r2) == child0.found(r2));
                            if found {
                                assert(s0.found(w2) == child0.found(r2));
                            } else {
                                assert(child0.found(r2) == Seq::<T>::empty());
                                assert(s0.found(w2) == Seq::<T>::empty());
                            }
                        } else {
                            if found {
                                lemma_child_index_update(cs0, pos as int, childf, d);
                                let ci = child_index(cs0, d);
                                if ci >= 0 {
                                    assert(ci != pos);
                                    assert(csf[ci].1 == cs0[ci].1);
                                    assert(self.found(w2) == csf[ci].1.found(r2));
                                    assert(s0.found(w2) == cs0[ci].1.found(r2));
                                }
                            } else {
                                lemma_child_index_insert(cs0, csf, pos as int, d);
                                let ci = child_index(cs0, d);
                                let ci2 = child_index(csf, d);
                                if ci >= 0 {
                                    assert(csf[ci2].1 == cs0[ci].1);
                                    assert(self.found(w2) == csf[ci2].1.found(r2));
                                    assert(s0.found(w2) == cs0[ci].1.found(r2));
                                }
                            }
                        }
                    }
                }
                // the prefix-search gain law, lifted one level
                assert(csf[pos as int] == (c, childf));
                if found {
                    assert(cs0[pos as int] == (c, child0));
                    assert forall|k: int|
                        0 <= k < csf.len() && k != pos implies csf[k] == cs0[k] by {}
                    lemma_sweep_gains_replace(s0, *self, pos as int, c, rest, child0, value);
                } else {
                    lemma_sweep_gains_insert(s0, *self, pos as int, c, rest, child0, value);
                }
                assert(seq![c] + rest =~= w);
            }
        }
    }
}

/// A fuzzy word finder over folded words with a bounded miss budget.
pub struct Finder<T> {
    root: TrieNode<T>,
    miss_count: usize,
    ignore_case: bool,
}

/// The code points of a sequence of characters.
pub open spec fn codes_of(s: Seq<char>) -> Seq<u32> {
    s.map_values(|c: char| c as u32)
}

/// What `str::to_lowercase` returns for a sequence of characters; the
/// result depends on the characters alone.
pub uninterp spec fn lower_of(s: Seq<char>) -> Seq<char>;

/// Relies on str::to_lowercase: folds a word to lower case; the result is
/// a function of the characters alone.
#[verifier::external_body]
fn lowercase(s: &str) -> (r: String)
    ensures
        r@ == lower_of(s@),
{
    s.to_lowercase()
}

impl<T> Finder<T> {
    /// Every reachable finder holds a well-formed trie.
    #[verifier::type_invariant]
    spec fn inv(self) -> bool {
        self.root.wf()
    }

    /// True when words are folded to lower case before use.
    pub closed spec fn ignores_case(self) -> bool {
        self.ignore_case
    }

    /// The number of characters the prefix search may skip in a row.
    pub closed spec fn miss_budget(self) -> usize {
        self.miss_count
    }

    /// A word as this finder stores it: folded when case is ignored.
    pub open spec fn spec_fold(self, w: Seq<char>) -> Seq<char> {
        if self.ignores_case() {
            lower_of(w)
        } else {
            w
        }
    }

    /// The values stored under a folded word.
    pub closed spec fn spec_found(self, w: Seq<char>) -> Seq<T> {
        self.root.found(codes_of(w))
    }

    /// The result of the fuzzy prefix search for a folded word: the values
    /// of every stored word reachable by consuming the whole query, where
    /// each matched query character may be preceded by at most the miss
    /// budget of skipped trie characters in a row; each such word's values
    /// are taken exactly once, in depth-first trie order.
    pub closed spec fn spec_prefix(self, w: Seq<char>) -> Seq<T> {
        self.root.spec_sweep(codes_of(w), seq![(0usize, 0usize)], false, self.miss_count)
    }

    /// The stored values of a word depend on its code points alone, so two
    /// words with the same code points share one value list.
    pub proof fn lemma_found_by_codes(self, a: Seq<char>, b: Seq<char>)
        requires
            codes_of(a) == codes_of(b),
        ensures
            self.spec_found(a) == self.spec_found(b),
    {
    }

    /// Creates a finder with the default parameters: a miss budget of
    /// `MISS_COUNT` and case-insensitive matching.
    pub fn new() -> (r: Self)
        ensures
            r.miss_budget() == MISS_COUNT,
            r.ignores_case(),
            forall|w: Seq<char>| r.spec_found(w) == Seq::<T>::empty(),
            forall|w: Seq<char>| r.spec_prefix(w) == Seq::<T>::empty(),
    {
        Self::with_params(MISS_COUNT, true)
    }

    /// Creates a finder with the given miss budget and case handling.
    pub fn with_params(miss_count: usize, ignore_case: bool) -> (r: Self)
        ensures
            r.miss_budget() == miss_count,
            r.ignores_case() == ignore_case,
            forall|w: Seq<char>| r.spec_found(w) == Seq::<T>::empty(),
            forall|w: Seq<char>| r.spec_prefix(w) == Seq::<T>::empty(),
    {
        let empty_root = TrieNode { children: Vec::new(), values: Vec::new() };
        proof {
            assert(empty_root.wf());
        }
        let r = Finder { root: empty_root, miss_count, ignore_case };
        proof {
            assert forall|w: Seq<char>| r.spec_found(w) == Seq::<T>::empty() by {
                let cw = codes_of(w);
                if cw.len() == 0 {
                    assert(r.root.found(cw) =~= Seq::<T>::empty());
                } else {
                    assert(child_index(r.root.children@, cw[0]) == -1);
                    assert(r.root.found(cw) =~= Seq::<T>::empty());
                }
            }
            assert forall|w: Seq<char>| r.spec_prefix(w) == Seq::<T>::empty() by {
                let cw = codes_of(w);
                let st = seq![(0usize, 0usize)];
                let cov = false || state_complete(st, cw.len() as int);
                assert(spec_sweep_list(r.root.children@, cw, st, cov, r.miss_count)
                    == Seq::<T>::empty());
                assert(r.root.spec_sweep(cw, st, false, r.miss_count) =~= Seq::<T>::empty());
            }
        }
        r
    }
}

impl<T: Copy> Finder<T> {
    /// Inserts a word and its value: the folded word's stored values gain
    /// this value at the end, every other folded word's stored values are
    /// unchanged, and the parameters are kept. Under case folding, two
    /// spellings of one word are indistinguishable. For the prefix search,
    /// every query that fuzzily matches the folded word gains exactly this
    /// value at one position of its result, and every other query's result
    /// is unchanged — so earlier results are never lost.
    pub fn insert(&mut self, word: String, value: T)
        ensures
            final(self).miss_budget() == old(self).miss_budget(),
            final(self).ignores_case() == old(self).ignores_case(),
            final(self).spec_found(old(self).spec_fold(word@)) == old(self).spec_found(
                old(self).spec_fold(word@),
            ).push(value),
            forall|w2: Seq<char>|
                codes_of(w2) != codes_of(old(self).spec_fold(word@)) ==> final(self).spec_found(
                    w2,
                ) == old(self).spec_found(w2),
            forall|w2: Seq<char>| #![trigger codes_of(w2)]
                ({
                    let before = old(self).spec_prefix(w2);
                    let after = final(self).spec_prefix(w2);
                    if fuzzy_matches(
                        codes_of(w2),
                        codes_of(old(self).spec_fold(word@)),
                        old(self).miss_budget(),
                    ) {
                        exists|p: int|
                            0 <= p <= before.len() && after == before.take(p).push(value)
                                + before.skip(p)
                    } else {
                        after == before
                    }
                }),
    {
        proof {
            use_type_invariant(&*self);
        }
        let ghost fold0 = self.spec_fold(word@);
        let folded = if self.ignore_case {
            lowercase(word.as_str())
        } else {
            word
        };
        let codes = codes_of_exec(folded.as_str());
        let mut tmp = Self::with_params(0, false);
        core::mem::swap(self, &mut tmp);
        let Finder { mut root, miss_count, ignore_case } = tmp;
        let ghost root0 = root;
        root.insert_rec(&codes, 0, value);
        proof {
            assert(codes@.skip(0) =~= codes@);
        }
        let result = Finder { root, miss_count, ignore_case };
        proof {
            assert forall|w2: Seq<char>|
                codes_of(w2) != codes_of(fold0) implies result.spec_found(w2) == old(
                    self,
                ).spec_found(w2) by {
                assert(result.root.found(codes_of(w2)) == root0.found(codes_of(w2)));
            }
            assert(sweep_gains_at(root0, result.root, codes@, value));
            assert forall|w2: Seq<char>| #![trigger codes_of(w2)]
                ({
                    let before = old(self).spec_prefix(w2);
                    let after = result.spec_prefix(w2);
                    if fuzzy_matches(codes_of(w2), codes_of(fold0), old(self).miss_budget()) {
                        exists|p: int|
                            0 <= p <= before.len() && after == before.take(p).push(value)
                                + before.skip(p)
                    } else {
                        after == before
                    }
                }) by {
                let cw = codes_of(w2);
                let st = seq![(0usize, 0usize)];
                assert(old(self).root == root0);
                assert(old(self).miss_count == miss_count);
                assert(old(self).spec_prefix(w2) == root0.spec_sweep(cw, st, false, miss_count));
                assert(result.spec_prefix(w2) == result.root.spec_sweep(cw, st, false, miss_count));
                assert(codes@ == codes_of(fold0));
                assert(fuzzy_matches(cw, codes_of(fold0), old(self).miss_budget())
                    == matched_from(st, false, cw, codes@, miss_count));
                assert(sweep_gain_one(root0, result.root, codes@, value, cw, st, false, miss_count));
            }
        }
        *self = result;
    }

    /// Searches for a word: returns the values stored under exactly the
    /// folded word, or nothing when it was never inserted.
    pub fn search(&self, word: String) -> (r: Vec<T>)
        ensures
            r@ == self.spec_found(self.spec_fold(word@)),
    {
        let folded = if self.ignore_case {
            lowercase(word.as_str())
        } else {
            word
        };
        let codes = codes_of_exec(folded.as_str());
        proof {
            assert(codes@.skip(0) =~= codes@);
        }
        self.root.search_rec(&codes, 0)
    }

    /// Searches for a word prefix with fuzz: follows the trie matching the
    /// folded prefix, skipping up to the miss budget of trie characters in
    /// a row before each match, and returns the values of every word at or
    /// below a node where the prefix was consumed, each exactly once.
    pub fn search_prefix(&self, word: String) -> (r: Vec<T>)
        ensures
            r@ == self.spec_prefix(self.spec_fold(word@)),
    {
        let ghost fold0 = self.spec_fold(word@);
        let folded = if self.ignore_case {
            lowercase(word.as_str())
        } else {
            word
        };
        let codes = codes_of_exec(folded.as_str());
        let mut out: Vec<T> = Vec::new();
        let mut states: Vec<(usize, usize)> = Vec::new();
        states.push((0, 0));
        proof {
            assert(states@ =~= seq![(0usize, 0usize)]);
        }
        self.root.sweep(&codes, &states, false, self.miss_count, &mut out);
        proof {
            assert(out@ =~= self.spec_prefix(fold0));
        }
        out
    }
}

/// Converts a string to the sequence of its character codes.
fn codes_of_exec(s: &str) -> (r: Vec<u32>)
    ensures
        r@ == codes_of(s@),
{
    let n = s.unicode_len();
    let mut out: Vec<u32> = Vec::new();
    let mut i: usize = 0;
    while i < n
        invariant
            n == s@.len(),
            i <= n,
            out@ == codes_of(s@.take(i as int)),
        decreases n - i,
    {
        let c = s.get_char(i);
        out.push(c as u32);
        proof {
            assert(out@ =~= codes_of(s@.take(i + 1)));
        }
        i = i + 1;
    }
    proof {
        assert(s@.take(n as int) =~= s@);
    }
    out
}

} // verus!
