//! Multi-pattern substring search: an automaton over a keyword trie with
//! failure links.
//!
//! Keywords are inserted into a shared prefix tree whose states are integer
//! indices into an arena; state 0 is the root.  Failure links and the merged
//! output sets are derived state: they are computed by a breadth-first pass
//! over the trie (`build`), invalidated by any insertion, and rebuilt from
//! scratch on the next match request.  Scanning advances one symbol at a
//! time, backtracking through failure links on a mismatch, and reports every
//! occurrence of every keyword, overlapping ones included.  Offsets are
//! counted in symbols, not in encoded storage units.

use vstd::prelude::*;

verus! {

/// The mathematical view of the keyword trie: goto edges, directly terminal
/// keyword indices and the root-to-state path of every state, plus the
/// inserted keywords.
#[verifier::ext_equal]
pub struct TrieView {
    /// For each state, its goto edges in insertion order.
    pub edges: Seq<Seq<(char, usize)>>,
    /// For each state, the keywords that end exactly at this state.
    pub terms: Seq<Seq<usize>>,
    /// For each state, the symbols spelled on the unique path from the root.
    pub paths: Seq<Seq<char>>,
    /// All inserted keywords, in insertion order.
    pub kws: Seq<Seq<char>>,
}

/// The target of the goto edge labeled `c`, if any.
pub open spec fn edge_lookup(es: Seq<(char, usize)>, c: char) -> Option<usize>
    decreases es.len(),
{
    if es.len() == 0 {
        None
    } else if es[0].0 == c {
        Some(es[0].1)
    } else {
        edge_lookup(es.drop_first(), c)
    }
}

/// State `s` is the target of some goto edge.
pub open spec fn has_parent(tv: TrieView, s: int) -> bool {
    exists|ps: int, j: int|
        0 <= ps < tv.edges.len() && 0 <= j < tv.edges[ps].len() && (#[trigger] tv.edges[ps][j]).1
            == s
}

/// Keyword `k` ends at some state of the trie.
pub open spec fn is_registered(tv: TrieView, k: int) -> bool {
    exists|s: int, j: int|
        0 <= s < tv.terms.len() && 0 <= j < tv.terms[s].len() && tv.terms[s][j] == k
}

/// All keywords below index `m` end at some state.
pub open spec fn registered_upto(tv: TrieView, m: int) -> bool {
    forall|k: int| 0 <= k < m ==> is_registered(tv, k)
}

/// The trie is well formed: state 0 is the root with the empty path, every
/// edge extends its source's path by its label, edge labels are distinct per
/// state, paths identify states, every non-root state is some state's child,
/// and terminal marks point at keywords whose symbols spell the state's path.
pub open spec fn tv_wf(tv: TrieView) -> bool {
    let n = tv.edges.len();
    &&& 1 <= n
    &&& tv.terms.len() == n
    &&& tv.paths.len() == n
    &&& tv.paths[0] == Seq::<char>::empty()
    &&& (forall|s: int| 1 <= s < n ==> (#[trigger] tv.paths[s]).len() >= 1)
    &&& (forall|s: int, j: int|
        0 <= s < n && 0 <= j < tv.edges[s].len() ==> {
            &&& 1 <= (#[trigger] tv.edges[s][j]).1 < n
            &&& tv.paths[tv.edges[s][j].1 as int] == tv.paths[s].push(tv.edges[s][j].0)
        })
    &&& (forall|s: int, j1: int, j2: int|
        0 <= s < n && 0 <= j1 < j2 < tv.edges[s].len() ==> (#[trigger] tv.edges[s][j1]).0 != (
        #[trigger] tv.edges[s][j2]).0)
    &&& (forall|s1: int, s2: int|
        #![trigger tv.paths[s1], tv.paths[s2]]
        0 <= s1 < s2 < n ==> tv.paths[s1] != tv.paths[s2])
    &&& (forall|s: int| 1 <= s < n ==> has_parent(tv, s))
    &&& (forall|k: int| 0 <= k < tv.kws.len() ==> (#[trigger] tv.kws[k]).len() >= 1)
    &&& (forall|s: int, j: int|
        0 <= s < n && 0 <= j < tv.terms[s].len() ==> {
            &&& (#[trigger] tv.terms[s][j]) < tv.kws.len()
            &&& tv.kws[tv.terms[s][j] as int] == tv.paths[s]
        })
    &&& (forall|s: int| 0 <= s < n ==> (#[trigger] tv.terms[s]).no_duplicates())
}

/// The trie of a freshly constructed automaton: only the root, nothing
/// inserted.
pub open spec fn empty_trie() -> TrieView {
    TrieView {
        edges: seq![Seq::empty()],
        terms: seq![Seq::empty()],
        paths: seq![Seq::empty()],
        kws: Seq::empty(),
    }
}

/// Inserting the suffix `kw` of a keyword at state `st`: shared prefixes
/// follow existing edges, each remaining symbol allocates the next unused
/// state index, and the final state is marked terminal for keyword `kidx`.
pub open spec fn insert_rec(tv: TrieView, st: int, kw: Seq<char>, kidx: int) -> TrieView
    decreases kw.len(),
{
    if kw.len() == 0 {
        TrieView { terms: tv.terms.update(st, tv.terms[st].push(kidx as usize)), ..tv }
    } else {
        match edge_lookup(tv.edges[st], kw[0]) {
            Some(t) => insert_rec(tv, t as int, kw.drop_first(), kidx),
            None => {
                let nid = tv.edges.len();
                let grown = TrieView {
                    edges: tv.edges.update(st, tv.edges[st].push((kw[0], nid as usize))).push(
                        Seq::empty(),
                    ),
                    terms: tv.terms.push(Seq::empty()),
                    paths: tv.paths.push(tv.paths[st].push(kw[0])),
                    kws: tv.kws,
                };
                insert_rec(grown, nid as int, kw.drop_first(), kidx)
            },
        }
    }
}

/// The trie after inserting keyword `kw`: it is appended to the keyword list
/// and its symbols are threaded into the tree from the root.
pub open spec fn insert_kw(tv: TrieView, kw: Seq<char>) -> TrieView {
    insert_rec(
        TrieView { kws: tv.kws.push(kw), ..tv },
        0,
        kw,
        tv.kws.len() as int,
    )
}

/// Failure links point into the trie, and each target's path is a strictly
/// shorter suffix of its source's path: the links form an acyclic forest
/// rooted at state 0, and following them always terminates at the root.
pub open spec fn fails_decreasing(tv: TrieView, f: Seq<usize>) -> bool {
    &&& f.len() == tv.edges.len() - 1
    &&& (forall|s: int|
        1 <= s < tv.edges.len() ==> (#[trigger] f[s - 1]) < tv.edges.len() && tv.paths[f[s
            - 1] as int].len() < tv.paths[s].len() && tv.paths[f[s - 1] as int].is_suffix_of(
            tv.paths[s],
        ))
}

/// Suffixes compose: a suffix of a suffix is a suffix.
proof fn lemma_suffix_trans<A>(a: Seq<A>, b: Seq<A>, c: Seq<A>)
    requires
        a.is_suffix_of(b),
        b.is_suffix_of(c),
    ensures
        a.is_suffix_of(c),
{
    assert forall|k: int| 0 <= k < a.len() implies #[trigger] a[k] == c[c.len() - a.len() + k] by {
        assert(a[k] == b[b.len() - a.len() + k]);
        assert(b[b.len() - a.len() + k] == c[c.len() - b.len() + (b.len() - a.len() + k)]);
    }
    assert(a =~= c.subrange((c.len() - a.len()) as int, c.len() as int));
}

/// Extending two sequences by the same symbol keeps one a suffix of the
/// other.
proof fn lemma_suffix_push<A>(a: Seq<A>, b: Seq<A>, x: A)
    requires
        a.is_suffix_of(b),
    ensures
        a.push(x).is_suffix_of(b.push(x)),
{
    assert(a.push(x) =~= b.push(x).subrange(
        (b.push(x).len() - a.push(x).len()) as int,
        b.push(x).len() as int,
    )) by {
        assert forall|k: int| 0 <= k < a.len() + 1 implies #[trigger] a.push(x)[k] == b.push(x)[
            b.len() - a.len() + k
        ] by {
            if k < a.len() {
                assert(a[k] == b[b.len() - a.len() + k]);
            }
        }
    }
}

/// The failure link of `s` reaches the state of the longest proper suffix
/// of `s`'s path that is itself a trie path: it is such a suffix, and no
/// state spells a longer one.
pub open spec fn fail_ok(tv: TrieView, f: Seq<usize>, s: int) -> bool {
    &&& (f[s - 1] as int) < tv.edges.len()
    &&& tv.paths[f[s - 1] as int].is_suffix_of(tv.paths[s])
    &&& tv.paths[f[s - 1] as int].len() < tv.paths[s].len()
    &&& (forall|x: int|
        0 <= x < tv.edges.len() && (#[trigger] tv.paths[x].is_suffix_of(tv.paths[s]))
            && tv.paths[x].len() < tv.paths[s].len() ==> tv.paths[x].len() <= tv.paths[f[s
            - 1] as int].len())
}

/// A state's merged output set holds exactly the keywords whose symbols
/// spell a suffix of the state's path: its own terminal keywords and the
/// ones inherited along failure links.
pub open spec fn outs_ok(tv: TrieView, outs: Seq<Seq<usize>>, s: int) -> bool {
    forall|k: int|
        0 <= k < tv.kws.len() ==> ((#[trigger] outs[s].contains(k as usize)) <==> tv.kws[
            k
        ].is_suffix_of(tv.paths[s]))
}

/// Failure links are semantically correct on every state of depth at most
/// `d`.
pub open spec fn fails_sem_upto(tv: TrieView, f: Seq<usize>, d: int) -> bool {
    forall|x: int|
        1 <= x < tv.edges.len() && tv.paths[x].len() <= d ==> #[trigger] fail_ok(tv, f, x)
}

/// State `x` lies on the failure chain of `s`: it is `s` itself or reached
/// from `s` by following failure links.
pub open spec fn in_chain(tv: TrieView, f: Seq<usize>, s: int, x: int) -> bool
    decreases tv.paths[s].len()
        when tv_wf(tv) && fails_decreasing(tv, f) && 0 <= s < tv.edges.len()
{
    if s == 0 {
        x == 0
    } else {
        x == s || in_chain(tv, f, f[s - 1] as int, x)
    }
}

/// The shorter of two suffixes of one sequence is a suffix of the longer.
proof fn lemma_suffix_of_suffix<A>(a: Seq<A>, b: Seq<A>, c: Seq<A>)
    requires
        a.is_suffix_of(c),
        b.is_suffix_of(c),
        a.len() <= b.len(),
    ensures
        a.is_suffix_of(b),
{
    assert forall|k: int| 0 <= k < a.len() implies #[trigger] a[k] == b[b.len() - a.len() + k] by {
        assert(a[k] == c[c.len() - a.len() + k]);
        assert(b[b.len() - a.len() + k] == c[c.len() - b.len() + (b.len() - a.len() + k)]);
    }
    assert(a =~= b.subrange((b.len() - a.len()) as int, b.len() as int));
}

/// A nonempty suffix of `p.push(c)` ends in `c`, and dropping that last
/// symbol leaves a suffix of `p`.
proof fn lemma_suffix_peel<A>(x: Seq<A>, p: Seq<A>, c: A)
    requires
        x.is_suffix_of(p.push(c)),
        x.len() >= 1,
    ensures
        x.last() == c,
        x.drop_last().is_suffix_of(p),
{
    let e = p.push(c);
    assert(x.last() == e[e.len() - 1]);
    assert forall|k: int| 0 <= k < x.len() - 1 implies #[trigger] x.drop_last()[k] == p[p.len() - (
    x.len() - 1) + k] by {
        assert(x[k] == e[e.len() - x.len() + k]);
        assert(e[e.len() - x.len() + k] == p[e.len() - x.len() + k]);
    }
    assert(x.drop_last() =~= p.subrange((p.len() - (x.len() - 1)) as int, p.len() as int));
}

/// Every state on a failure chain spells a suffix of the chain's start.
proof fn lemma_chain_suffix(tv: TrieView, f: Seq<usize>, s: int, x: int)
    requires
        tv_wf(tv),
        fails_decreasing(tv, f),
        0 <= s < tv.edges.len(),
        in_chain(tv, f, s, x),
    ensures
        0 <= x < tv.edges.len(),
        tv.paths[x].is_suffix_of(tv.paths[s]),
        tv.paths[x].len() <= tv.paths[s].len(),
    decreases tv.paths[s].len(),
{
    if s == 0 || x == s {
        assert(tv.paths[x] =~= tv.paths[s].subrange(0, tv.paths[s].len() as int));
    } else {
        lemma_chain_suffix(tv, f, f[s - 1] as int, x);
        lemma_suffix_trans(tv.paths[x], tv.paths[f[s - 1] as int], tv.paths[s]);
    }
}

/// The failure chase keeps every chain state: a state it passes over has no
/// goto edge on the sought label, and the rest stay on the chain of the
/// stopping point.
proof fn lemma_chase_skip(tv: TrieView, f: Seq<usize>, s: int, c: char, x: int)
    requires
        tv_wf(tv),
        fails_decreasing(tv, f),
        0 <= s < tv.edges.len(),
        in_chain(tv, f, s, x),
    ensures
        in_chain(tv, f, chase_from(tv, f, s, c), x) || edge_lookup(tv.edges[x], c) is None,
    decreases tv.paths[s].len(),
{
    if s == 0 || edge_lookup(tv.edges[s], c) is Some {
    } else if x != s {
        lemma_chase_skip(tv, f, f[s - 1] as int, c, x);
    }
}

/// The failure chain of `w` visits every state whose path is a proper
/// suffix of `w`'s path, provided the links up to `w`'s depth are correct.
proof fn lemma_chain_complete(tv: TrieView, f: Seq<usize>, w: int, x: int)
    requires
        tv_wf(tv),
        fails_decreasing(tv, f),
        1 <= w < tv.edges.len(),
        0 <= x < tv.edges.len(),
        fail_ok(tv, f, w),
        fails_sem_upto(tv, f, tv.paths[w].len() - 1),
        tv.paths[x].is_suffix_of(tv.paths[w]),
        tv.paths[x].len() < tv.paths[w].len(),
    ensures
        in_chain(tv, f, f[w - 1] as int, x),
    decreases tv.paths[w].len(),
{
    let fw = f[w - 1] as int;
    assert(tv.paths[x].len() <= tv.paths[fw].len());
    if tv.paths[x].len() == tv.paths[fw].len() {
        lemma_suffix_of_suffix(tv.paths[x], tv.paths[fw], tv.paths[w]);
        assert(tv.paths[x] =~= tv.paths[fw]);
        if x != fw {
            assert(tv.paths[x] != tv.paths[fw]);
        }
        assert(x == fw);
        if fw == 0 {
        } else {
            assert(in_chain(tv, f, fw, x));
        }
    } else {
        lemma_suffix_of_suffix(tv.paths[x], tv.paths[fw], tv.paths[w]);
        assert(fw >= 1) by {
            if fw == 0 {
                assert(tv.paths[x].len() < 0);
            }
        }
        assert(fail_ok(tv, f, fw));
        assert(fails_sem_upto(tv, f, tv.paths[fw].len() - 1)) by {
            assert forall|y: int|
                1 <= y < tv.edges.len() && tv.paths[y].len() <= tv.paths[fw].len()
                    - 1 implies #[trigger] fail_ok(tv, f, y) by {
                assert(tv.paths[y].len() <= tv.paths[w].len() - 1);
            }
        }
        lemma_chain_complete(tv, f, fw, x);
    }
}

/// Every non-root state has a unique parent edge; its label is the last
/// symbol of the state's path.
proof fn lemma_parent_edge(tv: TrieView, x: int) -> (r: (int, int))
    requires
        tv_wf(tv),
        1 <= x < tv.edges.len(),
    ensures
        0 <= r.0 < tv.edges.len(),
        0 <= r.1 < tv.edges[r.0].len(),
        (tv.edges[r.0][r.1]).1 == x,
        tv.paths[x] == tv.paths[r.0].push(tv.edges[r.0][r.1].0),
        tv.paths[r.0] == tv.paths[x].drop_last(),
        tv.edges[r.0][r.1].0 == tv.paths[x].last(),
        tv.paths[r.0].len() == tv.paths[x].len() - 1,
{
    assert(has_parent(tv, x));
    let (px, jx) = choose|px: int, jx: int|
        0 <= px < tv.edges.len() && 0 <= jx < tv.edges[px].len() && (#[trigger] tv.edges[px][jx]).1
            == x;
    assert(tv.paths[x] == tv.paths[px].push(tv.edges[px][jx].0));
    assert(tv.paths[px] =~= tv.paths[x].drop_last());
    (px, jx)
}

/// An edge-list lookup answers `Some` exactly for a listed label.
proof fn lemma_edge_lookup_props(es: Seq<(char, usize)>, c: char)
    ensures
        match edge_lookup(es, c) {
            Some(t) => exists|j: int| 0 <= j < es.len() && #[trigger] es[j] == (c, t),
            None => forall|j: int| 0 <= j < es.len() ==> (#[trigger] es[j]).0 != c,
        },
    decreases es.len(),
{
    if es.len() > 0 {
        if es[0].0 == c {
            assert(es[0] == (c, es[0].1));
        } else {
            lemma_edge_lookup_props(es.drop_first(), c);
            match edge_lookup(es.drop_first(), c) {
                Some(t) => {
                    let j = choose|j: int|
                        0 <= j < es.drop_first().len() && #[trigger] es.drop_first()[j] == (c, t);
                    assert(es[j + 1] == (c, t));
                },
                None => {
                    assert forall|j: int| 0 <= j < es.len() implies (#[trigger] es[j]).0 != c by {
                        if j > 0 {
                            assert(es.drop_first()[j - 1] == es[j]);
                        }
                    }
                },
            }
        }
    }
}

/// A lookup finds the first edge with the sought label.
proof fn lemma_edge_lookup_at(es: Seq<(char, usize)>, c: char, j: int)
    requires
        0 <= j < es.len(),
        es[j].0 == c,
        forall|k: int| 0 <= k < j ==> (#[trigger] es[k]).0 != c,
    ensures
        edge_lookup(es, c) == Some(es[j].1),
    decreases j,
{
    if j > 0 {
        assert forall|k: int| 0 <= k < j - 1 implies (#[trigger] es.drop_first()[k]).0 != c by {
            assert(es.drop_first()[k] == es[k + 1]);
        }
        assert(es.drop_first()[j - 1] == es[j]);
        lemma_edge_lookup_at(es.drop_first(), c, j - 1);
    }
}

/// Appending distinct elements keeps sequence pushes injective.
proof fn lemma_push_injective<A>(a: Seq<A>, b: Seq<A>, x: A, y: A)
    requires
        a.push(x) == b.push(y),
    ensures
        a == b,
        x == y,
{
    assert(a.push(x).len() == a.len() + 1);
    assert(b.push(y).len() == b.len() + 1);
    assert(a.len() == b.len());
    assert(a.push(x)[a.len() as int] == x);
    assert(b.push(y)[b.len() as int] == y);
    assert(a =~= b) by {
        assert forall|m: int| 0 <= m < a.len() implies a[m] == b[m] by {
            assert(a.push(x)[m] == a[m]);
            assert(b.push(y)[m] == b[m]);
        }
    }
}

/// Growing the trie by one fresh state, reached from `st` by a new edge
/// labeled `c`, preserves well-formedness.
proof fn lemma_grow_wf(tv: TrieView, st: int, c: char, tv2: TrieView)
    requires
        tv_wf(tv),
        tv.edges.len() <= usize::MAX,
        0 <= st < tv.edges.len(),
        edge_lookup(tv.edges[st], c) is None,
        tv2 == (TrieView {
            edges: tv.edges.update(st, tv.edges[st].push((c, tv.edges.len() as usize))).push(
                Seq::empty(),
            ),
            terms: tv.terms.push(Seq::empty()),
            paths: tv.paths.push(tv.paths[st].push(c)),
            kws: tv.kws,
        }),
    ensures
        tv_wf(tv2),
{
    let n = tv.edges.len() as int;
    lemma_edge_lookup_props(tv.edges[st], c);
    // Labels at `st` stay distinct: no old edge there is labeled `c`.
    assert forall|j1: int, j2: int| 0 <= j1 < j2 < tv2.edges[st].len() implies (
    #[trigger] tv2.edges[st][j1]).0 != (#[trigger] tv2.edges[st][j2]).0 by {
        assert(tv2.edges[st][j1] == tv.edges[st][j1]);
        if j2 < tv.edges[st].len() {
            assert(tv2.edges[st][j2] == tv.edges[st][j2]);
        }
    }
    // The fresh state's path differs from every existing path: an equal path
    // would mean an existing edge labeled `c` out of `st`.
    assert forall|s1: int| 0 <= s1 < n implies tv.paths[s1] != tv2.paths[n] by {
        if tv.paths[s1] == tv.paths[st].push(c) {
            assert(tv.paths[s1].len() >= 1);
            assert(s1 >= 1) by {
                assert(tv.paths[0].len() == 0);
            }
            assert(has_parent(tv, s1));
            let (ps, j) = choose|ps: int, j: int|
                0 <= ps < tv.edges.len() && 0 <= j < tv.edges[ps].len() && (
                #[trigger] tv.edges[ps][j]).1 == s1;
            assert(tv.paths[s1] == tv.paths[ps].push(tv.edges[ps][j].0));
            lemma_push_injective(tv.paths[ps], tv.paths[st], tv.edges[ps][j].0, c);
            assert(tv.paths[ps] == tv.paths[st]);
            assert(ps == st);
            assert((tv.edges[st][j]).0 != c);
        }
    }
    // Every old state keeps its parent edge; the fresh state's parent is the
    // new edge out of `st`.
    assert forall|s: int| 1 <= s < n + 1 implies has_parent(tv2, s) by {
        if s < n {
            assert(has_parent(tv, s));
            let (ps, j) = choose|ps: int, j: int|
                0 <= ps < tv.edges.len() && 0 <= j < tv.edges[ps].len() && (
                #[trigger] tv.edges[ps][j]).1 == s;
            assert((tv2.edges[ps][j]).1 == s);
        } else {
            assert((tv2.edges[st][tv.edges[st].len() as int]).1 == n);
        }
    }
    assert forall|s: int, j: int| 0 <= s < n + 1 && 0 <= j < tv2.edges[s].len() implies {
        &&& 1 <= (#[trigger] tv2.edges[s][j]).1 < n + 1
        &&& tv2.paths[tv2.edges[s][j].1 as int] == tv2.paths[s].push(tv2.edges[s][j].0)
    } by {
        if s == st && j == tv.edges[st].len() {
            assert(tv2.edges[s][j] == (c, n as usize));
        } else {
            assert(tv2.edges[s][j] == tv.edges[s][j]);
        }
    }
}

/// The intermediate state of the breadth-first failure-link computation:
/// the worklist of discovered states, the failure links so far, and the
/// merged output sets so far.
#[verifier::ext_equal]
pub struct BfsState {
    pub queue: Seq<usize>,
    pub f: Seq<usize>,
    pub outs: Seq<Seq<usize>>,
}

/// The states at trie depth 1, in edge order: the breadth-first traversal
/// starts from them, and their failure link is the root.
pub open spec fn root_children(tv: TrieView) -> Seq<usize> {
    tv.edges[0].map_values(|e: (char, usize)| e.1)
}

/// Before any state is processed: the worklist holds the root's children,
/// every failure link is the root, and each output set holds exactly the
/// directly terminal keywords.
pub open spec fn bfs_init(tv: TrieView) -> BfsState {
    BfsState {
        queue: root_children(tv),
        f: Seq::new((tv.edges.len() - 1) as nat, |i: int| 0usize),
        outs: tv.terms,
    }
}

/// Follows failure links from `s` until a state has a goto edge labeled `c`
/// or the root is reached.
pub open spec fn chase_from(tv: TrieView, f: Seq<usize>, s: int, c: char) -> int
    decreases tv.paths[s].len()
        when tv_wf(tv) && fails_decreasing(tv, f) && 0 <= s < tv.edges.len()
{
    if s == 0 || edge_lookup(tv.edges[s], c) is Some {
        s
    } else {
        chase_from(tv, f, f[s - 1] as int, c)
    }
}

/// The failure link assigned to the child of `w` along label `c`: the goto
/// target on `c` after chasing failure links from `w`'s own link, or the
/// root if the chase finds none.
pub open spec fn next_fail(tv: TrieView, f: Seq<usize>, w: int, c: char) -> usize {
    let fs = chase_from(tv, f, f[w - 1] as int, c);
    match edge_lookup(tv.edges[fs], c) {
        Some(u) => u,
        None => 0,
    }
}

/// Processes the goto edges of state `w` from index `j` on: each child is
/// appended to the worklist, given its failure link, and given its merged
/// output set `outs(child) = outs(child) + outs(fail(child))`.
pub open spec fn process_edges(tv: TrieView, st: BfsState, w: int, j: int) -> BfsState
    decreases tv.edges[w].len() - j
        when 0 <= j
{
    if 0 <= w < tv.edges.len() && 0 <= j < tv.edges[w].len() {
        let c = tv.edges[w][j].0;
        let t = tv.edges[w][j].1;
        let nf = next_fail(tv, st.f, w, c);
        let st2 = BfsState {
            queue: st.queue.push(t),
            f: st.f.update(t - 1, nf),
            outs: st.outs.update(t as int, st.outs[t as int] + st.outs[nf as int]),
        };
        process_edges(tv, st2, w, j + 1)
    } else {
        st
    }
}

/// The breadth-first computation after `i` worklist entries are processed.
pub open spec fn bfs_upto(tv: TrieView, i: nat) -> BfsState
    decreases i,
{
    if i == 0 {
        bfs_init(tv)
    } else {
        let st = bfs_upto(tv, (i - 1) as nat);
        if i - 1 < st.queue.len() && 1 <= st.queue[i - 1] < tv.edges.len() {
            process_edges(tv, st, st.queue[i - 1] as int, 0)
        } else {
            st
        }
    }
}

/// The derived state of a well-formed trie once the worklist is exhausted.
/// Every state is processed at most once, so the traversal is complete after
/// one step per non-root state.
pub open spec fn built_state(tv: TrieView) -> BfsState {
    bfs_upto(tv, (tv.edges.len() - 1) as nat)
}

/// Once the worklist is exhausted, further steps change nothing.
proof fn lemma_bfs_stable(tv: TrieView, i: nat, j: nat)
    requires
        bfs_upto(tv, i).queue.len() <= i,
        i <= j,
    ensures
        bfs_upto(tv, j) == bfs_upto(tv, i),
    decreases j - i,
{
    if j > i {
        lemma_bfs_stable(tv, i, (j - 1) as nat);
    }
}

/// A duplicate-free sequence of states other than the root has fewer
/// entries than there are states.
proof fn lemma_distinct_bounded_len(q: Seq<usize>, n: int)
    requires
        q.no_duplicates(),
        forall|m: int| 0 <= m < q.len() ==> 1 <= #[trigger] q[m] < n,
        1 <= n,
    ensures
        q.len() <= n - 1,
{
    let qi = q.map_values(|x: usize| x as int);
    q.lemma_no_duplicates_injective(|x: usize| x as int);
    qi.unique_seq_to_set();
    let range = vstd::set_lib::set_int_range(1, n);
    vstd::set_lib::lemma_int_range(1, n);
    assert(qi.to_set().subset_of(range)) by {
        assert forall|x: int| qi.to_set().contains(x) implies range.contains(x) by {
            let m = choose|m: int| 0 <= m < qi.len() && qi[m] == x;
            assert(1 <= q[m] < n);
        }
    }
    vstd::set_lib::lemma_len_subset(qi.to_set(), range);
}

/// When the breadth-first pass assigns a failure link to the child `t` of
/// the worklist head `w`, the chase result makes it the longest one: no
/// state's path is a longer proper suffix of `t`'s path.
proof fn lemma_new_fail_longest(
    tv: TrieView,
    f: Seq<usize>,
    q: Seq<usize>,
    head: int,
    c: char,
    w: int,
    t: int,
    fs: int,
    nf: int,
)
    requires
        tv_wf(tv),
        tv.edges.len() <= usize::MAX,
        fails_decreasing(tv, f),
        queue_sorted(tv, q),
        depth_one_enqueued(tv, q),
        children_enqueued(tv, q, head - 1),
        forall|m: int| 0 <= m < q.len() ==> 1 <= #[trigger] q[m] < tv.edges.len(),
        fails_sem_queue(tv, f, q),
        1 <= head <= q.len(),
        q[head - 1] as int == w,
        1 <= w < tv.edges.len(),
        1 <= t < tv.edges.len(),
        tv.paths[t] == tv.paths[w].push(c),
        fs == chase_from(tv, f, f[w - 1] as int, c),
        nf == (match edge_lookup(tv.edges[fs], c) {
            Some(u) => u as int,
            None => 0,
        }),
    ensures
        forall|x: int|
            0 <= x < tv.edges.len() && (#[trigger] tv.paths[x].is_suffix_of(tv.paths[t]))
                && tv.paths[x].len() < tv.paths[t].len() ==> tv.paths[x].len() <= tv.paths[
                nf
            ].len(),
{
    lemma_chase_bounds(tv, f, f[w - 1] as int, c);
    assert(fail_ok(tv, f, w));
    assert(fails_sem_upto(tv, f, tv.paths[w].len() - 1)) by {
        assert forall|x2: int|
            1 <= x2 < tv.edges.len() && tv.paths[x2].len() <= tv.paths[w].len()
                - 1 implies #[trigger] fail_ok(tv, f, x2) by {
            lemma_depth_covered(tv, q, head - 1, x2);
            let mq = choose|mq: int| 0 <= mq < q.len() && q[mq] == x2 as usize;
            assert(fail_ok(tv, f, q[mq] as int));
        }
    }
    assert forall|x: int|
        0 <= x < tv.edges.len() && (#[trigger] tv.paths[x].is_suffix_of(tv.paths[t]))
            && tv.paths[x].len() < tv.paths[t].len() implies tv.paths[x].len() <= tv.paths[
        nf
    ].len() by {
        if tv.paths[x].len() >= 1 {
            lemma_suffix_peel(tv.paths[x], tv.paths[w], c);
            let (px, jx) = lemma_parent_edge(tv, x);
            assert(tv.paths[px].is_suffix_of(tv.paths[w]));
            assert(tv.paths[px].len() < tv.paths[w].len());
            lemma_chain_complete(tv, f, w, px);
            lemma_chase_skip(tv, f, f[w - 1] as int, c, px);
            assert(edge_lookup(tv.edges[px], c) is Some) by {
                lemma_edge_lookup_props(tv.edges[px], c);
                if edge_lookup(tv.edges[px], c) is None {
                    assert((tv.edges[px][jx]).0 != c);
                }
            }
            assert(in_chain(tv, f, fs, px));
            lemma_chain_suffix(tv, f, fs, px);
            if nf == 0 {
                // The chase found no state with a goto edge on `c`, yet `x`
                // itself extends a chain state by `c`: impossible.
                assert(edge_lookup(tv.edges[fs], c) is None) by {
                    lemma_edge_lookup_props(tv.edges[fs], c);
                    match edge_lookup(tv.edges[fs], c) {
                        Some(u) => {
                            let ju = choose|ju: int|
                                0 <= ju < tv.edges[fs].len() && #[trigger] tv.edges[fs][ju] == (
                                c,
                                u,
                            );
                            assert(1 <= tv.edges[fs][ju].1);
                        },
                        None => {},
                    }
                }
                assert(fs == 0);
                assert(px == 0);
                lemma_edge_lookup_props(tv.edges[0], c);
                assert((tv.edges[px][jx]).0 != c);
            } else {
                lemma_edge_lookup_props(tv.edges[fs], c);
                let jn = choose|jn: int|
                    0 <= jn < tv.edges[fs].len() && #[trigger] tv.edges[fs][jn] == (
                    c,
                    nf as usize,
                );
                assert(tv.paths[nf] == tv.paths[fs].push(c));
            }
        }
    }
}

/// When the breadth-first pass merges output sets into the child `t` of the
/// worklist head `w`, the failure target it merges from was already
/// discovered: its parent sits strictly before the head.
proof fn lemma_fail_target_enqueued(tv: TrieView, q: Seq<usize>, head: int, w: int, nf: int)
    requires
        tv_wf(tv),
        tv.edges.len() <= usize::MAX,
        queue_sorted(tv, q),
        depth_one_enqueued(tv, q),
        children_enqueued(tv, q, head - 1),
        forall|m: int| 0 <= m < q.len() ==> 1 <= #[trigger] q[m] < tv.edges.len(),
        1 <= head <= q.len(),
        q[head - 1] as int == w,
        1 <= nf < tv.edges.len(),
        tv.paths[nf].len() <= tv.paths[w].len(),
    ensures
        q.contains(nf as usize),
{
    if tv.paths[nf].len() == 1 {
        assert(q.contains(nf as usize));
    } else {
        let (pn, jn) = lemma_parent_edge(tv, nf);
        assert(pn >= 1) by {
            if pn == 0 {
                assert(tv.paths[nf].len() == 1);
            }
        }
        lemma_depth_covered(tv, q, head - 1, pn);
        let mp = choose|mp: int| 0 <= mp < q.len() && q[mp] == pn as usize;
        assert(mp < head - 1) by {
            if mp >= head - 1 {
                assert(tv.paths[q[head - 1] as int].len() <= tv.paths[q[mp] as int].len());
            }
        }
        assert(q.contains((tv.edges[q[mp] as int][jn]).1));
    }
}

/// The merge `outs(t) = terminals(t) + outs(fail(t))` yields exactly the
/// keywords that are suffixes of `t`'s path, once the failure link is the
/// longest suffix and the failure target's outputs are themselves exact.
proof fn lemma_merged_outs_ok(tv: TrieView, onf: Seq<usize>, t: int, nf: int)
    requires
        tv_wf(tv),
        registered_upto(tv, tv.kws.len() as int),
        tv.kws.len() <= usize::MAX,
        0 <= t < tv.edges.len(),
        0 <= nf < tv.edges.len(),
        tv.paths[nf].is_suffix_of(tv.paths[t]),
        tv.paths[nf].len() < tv.paths[t].len(),
        forall|x: int|
            0 <= x < tv.edges.len() && (#[trigger] tv.paths[x].is_suffix_of(tv.paths[t]))
                && tv.paths[x].len() < tv.paths[t].len() ==> tv.paths[x].len() <= tv.paths[
                nf
            ].len(),
        forall|k: int|
            0 <= k < tv.kws.len() ==> ((#[trigger] onf.contains(k as usize)) <==> tv.kws[
                k
            ].is_suffix_of(tv.paths[nf])),
    ensures
        forall|k: int|
            0 <= k < tv.kws.len() ==> (((tv.terms[t] + onf).contains(k as usize)) <==> (
            #[trigger] tv.kws[k].is_suffix_of(tv.paths[t]))),
{
    let row = tv.terms[t] + onf;
    assert forall|k: int|
        0 <= k < tv.kws.len() implies ((row.contains(k as usize)) <==> (#[trigger] tv.kws[
        k
    ].is_suffix_of(tv.paths[t]))) by {
        if row.contains(k as usize) {
            let i = choose|i: int| 0 <= i < row.len() && row[i] == k as usize;
            if i < tv.terms[t].len() {
                assert(row[i] == tv.terms[t][i]);
                assert(tv.kws[k] == tv.paths[t]);
                assert(tv.kws[k] =~= tv.paths[t].subrange(0, tv.paths[t].len() as int));
            } else {
                assert(row[i] == onf[i - tv.terms[t].len()]);
                assert(onf.contains(k as usize));
                assert(tv.kws[k].is_suffix_of(tv.paths[nf]));
                lemma_suffix_trans(tv.kws[k], tv.paths[nf], tv.paths[t]);
            }
        }
        if tv.kws[k].is_suffix_of(tv.paths[t]) {
            if tv.kws[k].len() == tv.paths[t].len() {
                assert(tv.kws[k] =~= tv.paths[t]);
                lemma_terms_contains(tv, t, k);
                let i = choose|i: int|
                    0 <= i < tv.terms[t].len() && tv.terms[t][i] == k as usize;
                assert(row[i] == k as usize);
                assert(row.contains(k as usize));
            } else {
                // The keyword spells some state's path, a proper suffix of
                // `t`'s path, so it is no longer than the failure target's
                // path and is inherited from there.
                assert(is_registered(tv, k));
                let (sk, jk) = choose|sk: int, jk: int|
                    0 <= sk < tv.terms.len() && 0 <= jk < tv.terms[sk].len() && #[trigger] tv.terms[
                        sk
                    ][jk] == k;
                assert(tv.kws[k] == tv.paths[sk]);
                assert(tv.paths[sk].is_suffix_of(tv.paths[t]));
                assert(tv.paths[sk].len() <= tv.paths[nf].len());
                lemma_suffix_of_suffix(tv.kws[k], tv.paths[nf], tv.paths[t]);
                assert(onf.contains(k as usize));
                let i = choose|i: int| 0 <= i < onf.len() && onf[i] == k as usize;
                assert(row[tv.terms[t].len() + i] == k as usize);
                assert(row.contains(k as usize));
            }
        }
    }
}

/// The views of a table of rows.
pub open spec fn rows_view(v: Seq<Vec<usize>>) -> Seq<Seq<usize>> {
    v.map_values(|r: Vec<usize>| r@)
}

/// State `t` was put on the worklist by an edge already processed: an edge
/// of worklist entry `mm` at index `jx`, strictly before the processing
/// position `(mm_bound, j_bound)`.
pub open spec fn reached_before(
    tv: TrieView,
    q: Seq<usize>,
    mm_bound: int,
    j_bound: int,
    t: usize,
) -> bool {
    exists|mm: int, jx: int|
        0 <= mm < q.len() && 0 <= jx < tv.edges[q[mm] as int].len() && (mm < mm_bound || (mm
            == mm_bound && jx < j_bound)) && (#[trigger] tv.edges[q[mm] as int][jx]).1 == t
}

/// The worklist is sorted by trie depth: breadth-first order.
pub open spec fn queue_sorted(tv: TrieView, q: Seq<usize>) -> bool {
    forall|m1: int, m2: int|
        #![trigger q[m1], q[m2]]
        0 <= m1 <= m2 < q.len() ==> tv.paths[q[m1] as int].len() <= tv.paths[q[m2] as int].len()
}

/// Every depth-1 state is on the worklist.
pub open spec fn depth_one_enqueued(tv: TrieView, q: Seq<usize>) -> bool {
    forall|x: int|
        1 <= x < tv.edges.len() && tv.paths[x].len() == 1 ==> #[trigger] q.contains(x as usize)
}

/// Every child of a worklist entry below `head` is on the worklist.
pub open spec fn children_enqueued(tv: TrieView, q: Seq<usize>, head: int) -> bool {
    forall|m: int, j: int|
        0 <= m < head && m < q.len() && 0 <= j < tv.edges[q[m] as int].len() ==> q.contains(
            (#[trigger] tv.edges[q[m] as int][j]).1,
        )
}

/// Every worklist entry carries a correct failure link.
pub open spec fn fails_sem_queue(tv: TrieView, f: Seq<usize>, q: Seq<usize>) -> bool {
    forall|m: int| 0 <= m < q.len() ==> fail_ok(tv, f, #[trigger] q[m] as int)
}

/// Every worklist entry carries its exact merged output set.
pub open spec fn outs_sem_queue(tv: TrieView, outs: Seq<Seq<usize>>, q: Seq<usize>) -> bool {
    forall|m: int| 0 <= m < q.len() ==> outs_ok(tv, outs, #[trigger] q[m] as int)
}

/// While the head of the worklist is being processed, every state no deeper
/// than it has already been discovered: its parent, being strictly
/// shallower, was processed earlier, which put it on the worklist.
proof fn lemma_depth_covered(tv: TrieView, q: Seq<usize>, hpos: int, x: int)
    requires
        tv_wf(tv),
        tv.edges.len() <= usize::MAX,
        queue_sorted(tv, q),
        depth_one_enqueued(tv, q),
        children_enqueued(tv, q, hpos),
        forall|m: int| 0 <= m < q.len() ==> 1 <= #[trigger] q[m] < tv.edges.len(),
        0 <= hpos < q.len(),
        1 <= x < tv.edges.len(),
        tv.paths[x].len() <= tv.paths[q[hpos] as int].len(),
    ensures
        q.contains(x as usize),
    decreases tv.paths[x].len(),
{
    if tv.paths[x].len() == 1 {
        assert(q.contains(x as usize));
    } else {
        let (px, jx) = lemma_parent_edge(tv, x);
        assert(px >= 1) by {
            if px == 0 {
                assert(tv.paths[x].len() == 1);
            }
        }
        lemma_depth_covered(tv, q, hpos, px);
        assert((px as usize) as int == px);
        let mp = choose|mp: int| 0 <= mp < q.len() && q[mp] == px as usize;
        assert(q[mp] as int == px);
        assert(mp < hpos) by {
            if mp >= hpos {
                assert(tv.paths[q[hpos] as int].len() <= tv.paths[q[mp] as int].len());
            }
        }
        assert(q.contains((tv.edges[q[mp] as int][jx]).1));
    }
}

/// Once the worklist is exhausted, it has visited every non-root state:
/// each one is reachable from the root through parent edges, and processing
/// a state enqueues all its children.
proof fn lemma_all_enqueued(tv: TrieView, q: Seq<usize>, x: int)
    requires
        tv_wf(tv),
        tv.edges.len() <= usize::MAX,
        depth_one_enqueued(tv, q),
        children_enqueued(tv, q, q.len() as int),
        forall|m: int| 0 <= m < q.len() ==> 1 <= #[trigger] q[m] < tv.edges.len(),
        1 <= x < tv.edges.len(),
    ensures
        q.contains(x as usize),
    decreases tv.paths[x].len(),
{
    if tv.paths[x].len() == 1 {
        assert(q.contains(x as usize));
    } else {
        let (px, jx) = lemma_parent_edge(tv, x);
        assert(px >= 1) by {
            if px == 0 {
                assert(tv.paths[x].len() == 1);
            }
        }
        lemma_all_enqueued(tv, q, px);
        assert((px as usize) as int == px);
        let mp = choose|mp: int| 0 <= mp < q.len() && q[mp] == px as usize;
        assert(q[mp] as int == px);
        assert(q.contains((tv.edges[q[mp] as int][jx]).1));
    }
}

/// A keyword whose symbols spell a state's path is directly terminal there:
/// it is registered somewhere, and paths identify states.
proof fn lemma_terms_contains(tv: TrieView, s: int, k: int)
    requires
        tv_wf(tv),
        registered_upto(tv, tv.kws.len() as int),
        0 <= s < tv.edges.len(),
        0 <= k < tv.kws.len(),
        tv.kws[k] == tv.paths[s],
    ensures
        tv.terms[s].contains(k as usize),
{
    assert(is_registered(tv, k));
    let (s2, j2) = choose|s2: int, j2: int|
        0 <= s2 < tv.terms.len() && 0 <= j2 < tv.terms[s2].len() && #[trigger] tv.terms[s2][j2]
            == k;
    assert(tv.kws[k] == tv.paths[s2]);
    assert(s2 == s) by {
        if s2 != s {
            assert(tv.paths[s2] != tv.paths[s]);
        }
    }
    assert(tv.terms[s][j2] == k as usize);
}

/// In a well-formed trie each state has exactly one incoming edge.
proof fn lemma_unique_parent(tv: TrieView, ps1: int, j1: int, ps2: int, j2: int)
    requires
        tv_wf(tv),
        0 <= ps1 < tv.edges.len(),
        0 <= j1 < tv.edges[ps1].len(),
        0 <= ps2 < tv.edges.len(),
        0 <= j2 < tv.edges[ps2].len(),
        tv.edges[ps1][j1].1 == tv.edges[ps2][j2].1,
    ensures
        ps1 == ps2,
        j1 == j2,
{
    let t = tv.edges[ps1][j1].1;
    assert(tv.paths[t as int] == tv.paths[ps1].push(tv.edges[ps1][j1].0));
    assert(tv.paths[t as int] == tv.paths[ps2].push(tv.edges[ps2][j2].0));
    lemma_push_injective(tv.paths[ps1], tv.paths[ps2], tv.edges[ps1][j1].0, tv.edges[ps2][j2].0);
}

/// Chasing failure links stays in the trie, never climbs, and stops either
/// at the root or at a state with a goto edge on the sought label.
proof fn lemma_chase_bounds(tv: TrieView, f: Seq<usize>, s: int, c: char)
    requires
        tv_wf(tv),
        fails_decreasing(tv, f),
        0 <= s < tv.edges.len(),
    ensures
        0 <= chase_from(tv, f, s, c) < tv.edges.len(),
        tv.paths[chase_from(tv, f, s, c)].len() <= tv.paths[s].len(),
        chase_from(tv, f, s, c) == 0 || edge_lookup(
            tv.edges[chase_from(tv, f, s, c)],
            c,
        ) is Some,
    decreases tv.paths[s].len(),
{
    if s == 0 || edge_lookup(tv.edges[s], c) is Some {
    } else {
        lemma_chase_bounds(tv, f, f[s - 1] as int, c);
    }
}

/// Two duplicate-free sequences with no common entry concatenate to a
/// duplicate-free sequence.
proof fn lemma_concat_distinct(a: Seq<usize>, b: Seq<usize>)
    requires
        a.no_duplicates(),
        b.no_duplicates(),
        forall|i: int, j: int|
            #![trigger a[i], b[j]]
            0 <= i < a.len() && 0 <= j < b.len() ==> a[i] != b[j],
    ensures
        (a + b).no_duplicates(),
{
    assert forall|i1: int, i2: int| 0 <= i1 < i2 < (a + b).len() implies (a + b)[i1] != (a
        + b)[i2] by {
        if i1 < a.len() && i2 >= a.len() {
            assert((a + b)[i1] == a[i1]);
            assert((a + b)[i2] == b[i2 - a.len()]);
        }
    }
}

/// Finds the goto edge labeled `c` in an edge list, if any.
fn find_edge(es: &Vec<(char, usize)>, c: char) -> (ret: Option<usize>)
    ensures
        ret == edge_lookup(es@, c),
{
    let mut j: usize = 0;
    while j < es.len()
        invariant
            j <= es@.len(),
            forall|k: int| 0 <= k < j ==> (#[trigger] es@[k]).0 != c,
        decreases es@.len() - j,
    {
        if es[j].0 == c {
            proof {
                lemma_edge_lookup_at(es@, c, j as int);
            }
            return Some(es[j].1);
        }
        j += 1;
    }
    proof {
        lemma_edge_lookup_props(es@, c);
    }
    None
}

/// Multi-pattern matcher: a keyword trie plus derived failure links and
/// merged output sets.  The derived state is stale after any insertion and
/// is rebuilt from scratch by the next `build`.
pub struct AhoCorasick {
    keywords: Vec<String>,
    kw_lens: Vec<usize>,
    states: Vec<Vec<(char, usize)>>,
    terminals: Vec<Vec<usize>>,
    // For state N the failure link is fails[N - 1]; the root has none.
    fails: Option<Vec<usize>>,
    // Merged output sets, valid only while `fails` is.
    outputs: Vec<Vec<usize>>,
    paths: Ghost<Seq<Seq<char>>>,
}

impl AhoCorasick {
    /// The mathematical view of the keyword trie.
    pub closed spec fn trie_view(self) -> TrieView {
        TrieView {
            edges: self.states@.map_values(|v: Vec<(char, usize)>| v@),
            terms: self.terminals@.map_values(|v: Vec<usize>| v@),
            paths: self.paths@,
            kws: self.keywords@.map_values(|k: String| k@),
        }
    }

    /// The inserted keywords, in insertion order.
    pub open spec fn kws(self) -> Seq<Seq<char>> {
        self.trie_view().kws
    }

    /// Failure links and merged outputs are current.
    pub closed spec fn built(self) -> bool {
        self.fails is Some
    }

    /// The automaton is well formed.
    pub closed spec fn wf(self) -> bool {
        &&& tv_wf(self.trie_view())
        &&& registered_upto(self.trie_view(), self.trie_view().kws.len() as int)
        &&& self.kw_lens@.len() == self.keywords@.len()
        &&& (forall|k: int|
            0 <= k < self.kw_lens@.len() ==> self.kw_lens@[k] == (
            #[trigger] self.keywords@[k])@.len())
        &&& self.fails_wf()
    }

    /// Structural soundness of the derived state, when it is current:
    /// failure links stay in range and strictly decrease trie depth (so they
    /// form an acyclic forest rooted at 0), and merged output entries name
    /// keywords no longer than the state's path.
    pub closed spec fn fails_wf(self) -> bool {
        match self.fails {
            Some(f) => {
                let tv = self.trie_view();
                &&& f@ == built_state(tv).f
                &&& rows_view(self.outputs@) == built_state(tv).outs
                &&& fails_decreasing(tv, f@)
                &&& self.outputs@.len() == tv.edges.len()
                &&& (forall|s: int|
                    0 <= s < tv.edges.len() ==> (#[trigger] self.outputs@[s]@).no_duplicates())
                &&& (forall|s: int, j: int|
                    0 <= s < tv.edges.len() && 0 <= j < self.outputs@[s]@.len() ==> {
                        &&& (#[trigger] self.outputs@[s]@[j]) < tv.kws.len()
                        &&& 1 <= tv.kws[self.outputs@[s]@[j] as int].len() <= tv.paths[s].len()
                        &&& tv.kws[self.outputs@[s]@[j] as int].is_suffix_of(tv.paths[s])
                    })
                &&& (forall|s: int| 1 <= s < tv.edges.len() ==> #[trigger] fail_ok(tv, f@, s))
                &&& (forall|s: int|
                    0 <= s < tv.edges.len() ==> #[trigger] outs_ok(
                        tv,
                        rows_view(self.outputs@),
                        s,
                    ))
            },
            None => true,
        }
    }

    /// Creates an empty automaton: one root state, no keywords.
    pub fn new() -> (ret: AhoCorasick)
        ensures
            ret.wf(),
            !ret.built(),
            ret.trie_view() == empty_trie(),
    {
        let mut states: Vec<Vec<(char, usize)>> = Vec::new();
        states.push(Vec::new());
        let mut terminals: Vec<Vec<usize>> = Vec::new();
        terminals.push(Vec::new());
        let ghost root_paths: Seq<Seq<char>> = seq![Seq::empty()];
        let ret = AhoCorasick {
            keywords: Vec::new(),
            kw_lens: Vec::new(),
            states,
            terminals,
            fails: None,
            outputs: Vec::new(),
            paths: Ghost(root_paths),
        };
        proof {
            assert(ret.trie_view().edges =~= empty_trie().edges);
            assert(ret.trie_view().terms =~= empty_trie().terms);
            assert(ret.trie_view().paths =~= empty_trie().paths);
            assert(ret.trie_view().kws =~= empty_trie().kws);
            assert(ret.trie_view() =~= empty_trie());
        }
        ret
    }
}

impl AhoCorasick {
    /// Inserts one keyword.  Its symbols walk existing goto edges from the
    /// root as far as they are shared; each remaining symbol allocates a new
    /// state, and the final state is marked terminal for this keyword's
    /// index.  Re-inserting the same literal text creates a second,
    /// independently reported keyword index.  The keyword must be nonempty;
    /// a successful insertion invalidates the derived failure links and
    /// merged outputs.
    pub fn add_keyword(&mut self, s: &str)
        requires
            old(self).wf(),
            s@.len() >= 1,
        ensures
            final(self).wf(),
            !final(self).built(),
            final(self).trie_view() == insert_kw(old(self).trie_view(), s@),
    {
        let ghost tv0 = self.trie_view();
        let ghost kidx = self.keywords@.len() as int;
        let kw_len = s.unicode_len();
        self.keywords.push(s.to_owned());
        self.kw_lens.push(kw_len);
        self.fails = None;
        proof {
            // Appending the keyword changes only the keyword list of the
            // view; well-formedness carries over conjunct by conjunct.
            assert(self.trie_view().kws =~= tv0.kws.push(s@));
            assert(self.trie_view() =~= (TrieView { kws: tv0.kws.push(s@), ..tv0 }));
            assert(s@.skip(0) =~= s@);
            assert(s@.take(0) =~= Seq::<char>::empty());
            let tvp = self.trie_view();
            assert forall|k: int| 0 <= k < tvp.kws.len() implies (#[trigger] tvp.kws[k]).len()
                >= 1 by {
                if k < kidx {
                    assert(tvp.kws[k] == tv0.kws[k]);
                } else {
                    assert(tvp.kws[k] == s@);
                }
            }
            let n0 = tvp.edges.len();
            assert(tvp.paths[0] == Seq::<char>::empty());
            assert(forall|s: int| 1 <= s < n0 ==> (#[trigger] tvp.paths[s]).len() >= 1);
            assert(forall|s: int, j: int|
                0 <= s < n0 && 0 <= j < tvp.edges[s].len() ==> {
                    &&& 1 <= (#[trigger] tvp.edges[s][j]).1 < n0
                    &&& tvp.paths[tvp.edges[s][j].1 as int] == tvp.paths[s].push(tvp.edges[s][j].0)
                });
            assert(forall|s: int, j1: int, j2: int|
                0 <= s < n0 && 0 <= j1 < j2 < tvp.edges[s].len() ==> (#[trigger] tvp.edges[s][j1]).0
                    != (#[trigger] tvp.edges[s][j2]).0);
            assert(forall|s1: int, s2: int|
                #![trigger tvp.paths[s1], tvp.paths[s2]]
                0 <= s1 < s2 < n0 ==> tvp.paths[s1] != tvp.paths[s2]);
            assert forall|s: int| 1 <= s < n0 implies has_parent(tvp, s) by {
                assert(has_parent(tv0, s));
                let (ps, j) = choose|ps: int, j: int|
                    0 <= ps < tv0.edges.len() && 0 <= j < tv0.edges[ps].len() && (
                    #[trigger] tv0.edges[ps][j]).1 == s;
                assert((tvp.edges[ps][j]).1 == s);
            }
            assert(forall|s: int, j: int|
                0 <= s < n0 && 0 <= j < tvp.terms[s].len() ==> {
                    &&& (#[trigger] tvp.terms[s][j]) < tvp.kws.len()
                    &&& tvp.kws[tvp.terms[s][j] as int] == tvp.paths[s]
                });
            assert(forall|s: int| 0 <= s < n0 ==> (#[trigger] tvp.terms[s]).no_duplicates());
            assert(tv_wf(tvp));
            assert forall|k: int| 0 <= k < kidx implies is_registered(tvp, k) by {
                assert(is_registered(tv0, k));
                let (st2, j) = choose|st2: int, j: int|
                    0 <= st2 < tv0.terms.len() && 0 <= j < tv0.terms[st2].len()
                        && #[trigger] tv0.terms[st2][j] == k;
                assert(tvp.terms[st2][j] == k);
            }
        }
        let mut state: usize = 0;
        let mut i: usize = 0;
        while i < kw_len
            invariant
                i <= kw_len,
                kw_len == s@.len(),
                tv_wf(self.trie_view()),
                self.trie_view().kws == tv0.kws.push(s@),
                kidx == tv0.kws.len(),
                registered_upto(self.trie_view(), kidx),
                forall|st: int, j: int|
                    0 <= st < self.trie_view().terms.len() && 0 <= j
                        < self.trie_view().terms[st].len() ==> (
                    #[trigger] self.trie_view().terms[st][j]) < kidx,
                self.kw_lens@.len() == self.keywords@.len(),
                forall|k: int|
                    0 <= k < self.kw_lens@.len() ==> self.kw_lens@[k] == (
                    #[trigger] self.keywords@[k])@.len(),
                self.fails is None,
                state < self.trie_view().edges.len(),
                self.trie_view().paths[state as int] == s@.take(i as int),
                insert_rec(self.trie_view(), state as int, s@.skip(i as int), kidx) == insert_kw(
                    tv0,
                    s@,
                ),
            decreases kw_len - i,
        {
            let ghost tv = self.trie_view();
            let ghost rest = s@.skip(i as int);
            let c = s.get_char(i);
            proof {
                assert(rest[0] == s@[i as int]);
                assert(rest.drop_first() =~= s@.skip(i as int + 1));
                assert(s@.take(i as int + 1) =~= s@.take(i as int).push(s@[i as int]));
            }
            match find_edge(&self.states[state], c) {
                Some(t) => {
                    proof {
                        lemma_edge_lookup_props(tv.edges[state as int], c);
                        let ghost se = tv.edges[state as int];
                        let j = choose|j: int| 0 <= j < se.len() && #[trigger] se[j] == (c, t);
                        assert(tv.paths[t as int] == tv.paths[state as int].push(c));
                    }
                    state = t;
                },
                None => {
                    let nid = self.states.len();
                    let ghost tv2 = TrieView {
                        edges: tv.edges.update(
                            state as int,
                            tv.edges[state as int].push((c, tv.edges.len() as usize)),
                        ).push(Seq::empty()),
                        terms: tv.terms.push(Seq::empty()),
                        paths: tv.paths.push(tv.paths[state as int].push(c)),
                        kws: tv.kws,
                    };
                    self.states[state].push((c, nid));
                    self.states.push(Vec::new());
                    self.terminals.push(Vec::new());
                    let ghost newpaths = self.paths@.push(self.paths@[state as int].push(c));
                    self.paths = Ghost(newpaths);
                    proof {
                        assert(self.trie_view().edges =~= tv2.edges);
                        assert(self.trie_view().terms =~= tv2.terms);
                        assert(self.trie_view() =~= tv2);
                        lemma_grow_wf(tv, state as int, c, tv2);
                        assert forall|k: int| 0 <= k < kidx implies is_registered(
                            self.trie_view(),
                            k,
                        ) by {
                            assert(is_registered(tv, k));
                            let (st2, j) = choose|st2: int, j: int|
                                0 <= st2 < tv.terms.len() && 0 <= j < tv.terms[st2].len()
                                    && #[trigger] tv.terms[st2][j] == k;
                            assert(tv2.terms[st2][j] == k);
                        }
                    }
                    state = nid;
                },
            }
            i += 1;
        }
        let ghost tvl = self.trie_view();
        let kw_index = self.keywords.len() - 1;
        let ghost tv3 = TrieView {
            terms: tvl.terms.update(
                state as int,
                tvl.terms[state as int].push(kidx as usize),
            ),
            ..tvl
        };
        self.terminals[state].push(kw_index);
        proof {
            assert(s@.take(kw_len as int) =~= s@);
            assert(s@.skip(kw_len as int) =~= Seq::<char>::empty());
            assert(self.trie_view().terms =~= tv3.terms);
            assert(self.trie_view() =~= tv3);
            assert(self.trie_view() == insert_kw(tv0, s@));
            // Terminal marks at `state` stay distinct and point at keywords
            // spelling the state's path; the fresh mark names this keyword.
            assert(tvl.kws[kidx] == tvl.paths[state as int]);
            assert forall|st2: int, j: int|
                0 <= st2 < tv3.terms.len() && 0 <= j < tv3.terms[st2].len() implies {
                &&& (#[trigger] tv3.terms[st2][j]) < tv3.kws.len()
                &&& tv3.kws[tv3.terms[st2][j] as int] == tv3.paths[st2]
            } by {
                if st2 == state as int && j == tvl.terms[state as int].len() {
                } else {
                    assert(tv3.terms[st2][j] == tvl.terms[st2][j]);
                }
            }
            assert forall|st2: int| 0 <= st2 < tv3.terms.len() implies (
            #[trigger] tv3.terms[st2]).no_duplicates() by {
                if st2 == state as int {
                    assert forall|j1: int, j2: int|
                        0 <= j1 < j2 < tv3.terms[st2].len() implies tv3.terms[st2][j1]
                        != tv3.terms[st2][j2] by {
                        assert(tv3.terms[st2][j1] == tvl.terms[st2][j1]);
                        if j2 < tvl.terms[st2].len() {
                            assert(tv3.terms[st2][j2] == tvl.terms[st2][j2]);
                        } else {
                            assert(tv3.terms[st2][j2] == kidx as usize);
                            assert(tvl.terms[st2][j1] < kidx);
                        }
                    }
                } else {
                    assert(tv3.terms[st2] == tvl.terms[st2]);
                }
            }
            assert forall|s: int| 1 <= s < tv3.edges.len() implies has_parent(tv3, s) by {
                assert(has_parent(tvl, s));
                let (ps, j) = choose|ps: int, j: int|
                    0 <= ps < tvl.edges.len() && 0 <= j < tvl.edges[ps].len() && (
                    #[trigger] tvl.edges[ps][j]).1 == s;
                assert((tv3.edges[ps][j]).1 == s);
            }
            assert(tv_wf(self.trie_view()));
            assert forall|k: int| 0 <= k < kidx + 1 implies is_registered(
                self.trie_view(),
                k,
            ) by {
                if k < kidx {
                    assert(is_registered(tvl, k));
                    let (st2, j) = choose|st2: int, j: int|
                        0 <= st2 < tvl.terms.len() && 0 <= j < tvl.terms[st2].len()
                            && #[trigger] tvl.terms[st2][j] == k;
                    assert(tv3.terms[st2][j] == k);
                } else {
                    assert(tv3.terms[state as int][tvl.terms[state as int].len() as int]
                        == kidx as usize);
                }
            }
        }
    }
}

impl AhoCorasick {
    /// The failure link table, when built: entry `s - 1` is the failure
    /// link of state `s`.
    pub closed spec fn fails_view(self) -> Seq<usize> {
        self.fails.unwrap()@
    }

    /// The merged output sets, when built.
    pub closed spec fn outs_view(self) -> Seq<Seq<usize>> {
        rows_view(self.outputs@)
    }

    /// Computes the failure links and merged output sets, breadth-first from
    /// the root's children, and is a no-op while they are already current.
    /// The result is a function of the trie alone, so rebuilding after an
    /// insertion leaves no artifact of earlier builds, and rebuilding
    /// without an intervening insertion changes nothing at all.
    #[verifier::rlimit(60)]
    pub fn build(&mut self)
        requires
            old(self).wf(),
        ensures
            final(self).wf(),
            final(self).built(),
            final(self).trie_view() == old(self).trie_view(),
            final(self).fails_view() == built_state(old(self).trie_view()).f,
            final(self).outs_view() == built_state(old(self).trie_view()).outs,
            old(self).built() ==> *final(self) == *old(self),
    {
        if self.fails.is_some() {
            return;
        }
        let ghost tv = self.trie_view();
        let n = self.states.len();
        let n_kws = self.keywords.len();

        // The output sets start over as a copy of the direct terminal sets:
        // nothing of an earlier build survives.
        let mut outputs: Vec<Vec<usize>> = Vec::new();
        let mut s: usize = 0;
        while s < n
            invariant
                tv == self.trie_view(),
                tv_wf(tv),
                n == tv.edges.len(),
                n == self.states@.len(),
                s <= n,
                outputs@.len() == s,
                forall|m: int| 0 <= m < s ==> (#[trigger] outputs@[m])@ == tv.terms[m],
            decreases n - s,
        {
            let row_len = self.terminals[s].len();
            let mut row: Vec<usize> = Vec::new();
            let mut k: usize = 0;
            while k < row_len
                invariant
                    tv == self.trie_view(),
                    n == tv.edges.len(),
                    s < n,
                    row_len == self.terminals@[s as int]@.len(),
                    self.terminals@.len() == n,
                    row_len == tv.terms[s as int].len(),
                    k <= row_len,
                    row@ == tv.terms[s as int].take(k as int),
                decreases row_len - k,
            {
                let v = self.terminals[s][k];
                row.push(v);
                proof {
                    assert(tv.terms[s as int].take(k as int + 1) =~= tv.terms[s as int].take(
                        k as int,
                    ).push(v));
                }
                k += 1;
            }
            proof {
                assert(tv.terms[s as int].take(row_len as int) =~= tv.terms[s as int]);
            }
            outputs.push(row);
            s += 1;
        }

        // Every failure link starts at the root.
        let mut fails: Vec<usize> = Vec::new();
        while fails.len() < n - 1
            invariant
                n >= 1,
                fails@.len() <= n - 1,
                forall|m: int| 0 <= m < fails@.len() ==> fails@[m] == 0,
            decreases n - 1 - fails@.len(),
        {
            fails.push(0);
        }

        // The worklist starts with the root's children, whose failure link
        // is already correct: the root.
        let mut queue: Vec<usize> = Vec::new();
        let root_len = self.states[0].len();
        let mut j0: usize = 0;
        while j0 < root_len
            invariant
                tv == self.trie_view(),
                tv_wf(tv),
                n == tv.edges.len(),
                n == self.states@.len(),
                root_len == tv.edges[0].len(),
                j0 <= root_len,
                queue@.len() == j0,
                forall|m: int| 0 <= m < j0 ==> queue@[m] == (#[trigger] tv.edges[0][m]).1,
            decreases root_len - j0,
        {
            let e = self.states[0][j0];
            queue.push(e.1);
            j0 += 1;
        }

        proof {
            assert(queue@ =~= root_children(tv));
            assert(fails@ =~= bfs_init(tv).f);
            assert forall|s2: int| 1 <= s2 < n implies tv.paths[
                #[trigger] fails@[s2 - 1] as int
            ].is_suffix_of(tv.paths[s2]) by {
                assert(fails@[s2 - 1] == 0);
                assert(tv.paths[0] =~= tv.paths[s2].subrange(
                    tv.paths[s2].len() as int,
                    tv.paths[s2].len() as int,
                ));
            }
            assert forall|s2: int, jj: int|
                0 <= s2 < n && 0 <= jj < outputs@[s2]@.len() implies tv.kws[
                outputs@[s2]@[jj] as int
            ].is_suffix_of(tv.paths[s2]) by {
                assert(outputs@[s2]@[jj] == tv.terms[s2][jj]);
                assert(tv.kws[outputs@[s2]@[jj] as int] == tv.paths[s2]);
                assert(tv.paths[s2] =~= tv.paths[s2].subrange(0, tv.paths[s2].len() as int));
            }
            assert(rows_view(outputs@) =~= bfs_init(tv).outs);
            assert((BfsState { queue: queue@, f: fails@, outs: rows_view(outputs@) }) =~= bfs_upto(
                tv,
                0,
            ));
            // Initially the worklist holds exactly the depth-1 states, once
            // each: distinct root edges lead to distinct states.
            assert forall|m1: int, m2: int| 0 <= m1 < m2 < queue@.len() implies queue@[m1]
                != queue@[m2] by {
                if queue@[m1] == queue@[m2] {
                    lemma_unique_parent(tv, 0, m1, 0, m2);
                }
            }
            assert(queue@.no_duplicates());
            lemma_distinct_bounded_len(queue@, n as int);
            assert forall|t: usize| #[trigger] queue@.contains(t) implies tv.paths[
                t as int
            ].len() == 1 by {
                let m = choose|m: int| 0 <= m < queue@.len() && queue@[m] == t;
                assert(tv.paths[t as int] == tv.paths[0].push(tv.edges[0][m].0));
            }
            assert(tv.kws.len() <= usize::MAX) by {
                assert(tv.kws.len() == self.keywords@.len());
                assert(self.keywords@.len() == n_kws);
            }
            // All initial entries sit at depth 1: the worklist starts sorted
            // and holds every depth-1 state, with the correct (root) failure
            // link and exact (directly terminal) outputs.
            assert forall|m: int| 0 <= m < queue@.len() implies tv.paths[
                #[trigger] queue@[m] as int
            ].len() == 1 by {
                assert(tv.paths[queue@[m] as int] == tv.paths[0].push(tv.edges[0][m].0));
            }
            assert(queue_sorted(tv, queue@));
            assert forall|x: int|
                1 <= x < tv.edges.len() && tv.paths[x].len() == 1 implies #[trigger] queue@
                .contains(x as usize) by {
                let (px, jx) = lemma_parent_edge(tv, x);
                assert(px == 0) by {
                    if px >= 1 {
                        assert(tv.paths[px].len() >= 1);
                    }
                }
                assert(queue@[jx] == x as usize);
            }
            assert(depth_one_enqueued(tv, queue@));
            assert(children_enqueued(tv, queue@, 0));
            assert forall|m: int| 0 <= m < queue@.len() implies fail_ok(
                tv,
                fails@,
                #[trigger] queue@[m] as int,
            ) by {
                let x = queue@[m] as int;
                assert(fails@[x - 1] == 0);
                assert(tv.paths[0] =~= tv.paths[x].subrange(
                    tv.paths[x].len() as int,
                    tv.paths[x].len() as int,
                ));
                assert forall|y: int|
                    0 <= y < tv.edges.len() && (#[trigger] tv.paths[y].is_suffix_of(tv.paths[x]))
                        && tv.paths[y].len() < tv.paths[x].len() implies tv.paths[y].len()
                    <= tv.paths[0].len() by {}
            }
            assert(fails_sem_queue(tv, fails@, queue@));
            assert(outs_ok(tv, rows_view(outputs@), 0)) by {
                assert forall|k: int|
                    0 <= k < tv.kws.len() implies ((#[trigger] rows_view(outputs@)[0].contains(
                        k as usize,
                    )) <==> tv.kws[k].is_suffix_of(tv.paths[0])) by {
                    if rows_view(outputs@)[0].contains(k as usize) {
                        let i = choose|i: int|
                            0 <= i < tv.terms[0].len() && tv.terms[0][i] == k as usize;
                        assert(tv.kws[k].len() >= 1);
                        assert(tv.kws[tv.terms[0][i] as int] == tv.paths[0]);
                    }
                    if tv.kws[k].is_suffix_of(tv.paths[0]) {
                        assert(tv.kws[k].len() >= 1);
                    }
                }
            }
            assert forall|m: int| 0 <= m < queue@.len() implies outs_ok(
                tv,
                rows_view(outputs@),
                #[trigger] queue@[m] as int,
            ) by {
                let x = queue@[m] as int;
                assert(rows_view(outputs@)[x] == tv.terms[x]);
                assert forall|k: int|
                    0 <= k < tv.kws.len() implies ((#[trigger] rows_view(outputs@)[x].contains(
                        k as usize,
                    )) <==> tv.kws[k].is_suffix_of(tv.paths[x])) by {
                    if rows_view(outputs@)[x].contains(k as usize) {
                        let i = choose|i: int|
                            0 <= i < tv.terms[x].len() && tv.terms[x][i] == k as usize;
                        assert(tv.kws[k] == tv.paths[x]);
                        assert(tv.kws[k] =~= tv.paths[x].subrange(0, tv.paths[x].len() as int));
                    }
                    if tv.kws[k].is_suffix_of(tv.paths[x]) {
                        assert(tv.kws[k].len() >= 1);
                        assert(tv.paths[x].len() == 1);
                        assert(tv.kws[k] =~= tv.paths[x]);
                        lemma_terms_contains(tv, x, k);
                        let i = choose|i: int|
                            0 <= i < tv.terms[x].len() && tv.terms[x][i] == k as usize;
                        assert(rows_view(outputs@)[x][i] == k as usize);
                    }
                }
            }
            assert(outs_sem_queue(tv, rows_view(outputs@), queue@));
        }

        let mut head: usize = 0;
        while head < queue.len()
            invariant
                tv == self.trie_view(),
                tv_wf(tv),
                n == tv.edges.len(),
                n == self.states@.len(),
                n <= usize::MAX,
                head <= queue@.len() <= n - 1,
                (BfsState { queue: queue@, f: fails@, outs: rows_view(outputs@) }) == bfs_upto(
                    tv,
                    head as nat,
                ),
                fails_decreasing(tv, fails@),
                outputs@.len() == n,
                forall|s2: int| 0 <= s2 < n ==> (#[trigger] outputs@[s2]@).no_duplicates(),
                forall|s2: int, jj: int|
                    0 <= s2 < n && 0 <= jj < outputs@[s2]@.len() ==> {
                        &&& (#[trigger] outputs@[s2]@[jj]) < tv.kws.len()
                        &&& 1 <= tv.kws[outputs@[s2]@[jj] as int].len() <= tv.paths[s2].len()
                        &&& tv.kws[outputs@[s2]@[jj] as int].is_suffix_of(tv.paths[s2])
                    },
                queue@.no_duplicates(),
                forall|m: int| 0 <= m < queue@.len() ==> 1 <= #[trigger] queue@[m] < n,
                forall|t: usize|
                    #[trigger] queue@.contains(t) ==> tv.paths[t as int].len() == 1
                        || reached_before(tv, queue@, head as int, 0, t),
                forall|t: usize|
                    1 <= t < n && !queue@.contains(t) ==> rows_view(outputs@)[t as int]
                        == tv.terms[t as int],
                rows_view(outputs@)[0] == tv.terms[0],
                registered_upto(tv, tv.kws.len() as int),
                tv.kws.len() <= usize::MAX,
                queue_sorted(tv, queue@),
                depth_one_enqueued(tv, queue@),
                children_enqueued(tv, queue@, head as int),
                fails_sem_queue(tv, fails@, queue@),
                outs_sem_queue(tv, rows_view(outputs@), queue@),
                outs_ok(tv, rows_view(outputs@), 0),
            decreases n - head,
        {
            let work = queue[head];
            head += 1;
            let ghost st0 = BfsState { queue: queue@, f: fails@, outs: rows_view(outputs@) };
            proof {
                assert(bfs_upto(tv, head as nat) == process_edges(tv, st0, work as int, 0));
            }
            let m = self.states[work].len();
            let mut j: usize = 0;
            while j < m
                invariant
                    tv == self.trie_view(),
                    tv_wf(tv),
                    n == tv.edges.len(),
                    n == self.states@.len(),
                    n <= usize::MAX,
                    1 <= work < n,
                    m == tv.edges[work as int].len(),
                    j <= m,
                    1 <= head <= queue@.len(),
                    queue@[head - 1] == work,
                    process_edges(
                        tv,
                        BfsState { queue: queue@, f: fails@, outs: rows_view(outputs@) },
                        work as int,
                        j as int,
                    ) == bfs_upto(tv, head as nat),
                    fails_decreasing(tv, fails@),
                    outputs@.len() == n,
                    forall|s2: int| 0 <= s2 < n ==> (#[trigger] outputs@[s2]@).no_duplicates(),
                    forall|s2: int, jj: int|
                        0 <= s2 < n && 0 <= jj < outputs@[s2]@.len() ==> {
                            &&& (#[trigger] outputs@[s2]@[jj]) < tv.kws.len()
                            &&& 1 <= tv.kws[outputs@[s2]@[jj] as int].len() <= tv.paths[s2].len()
                            &&& tv.kws[outputs@[s2]@[jj] as int].is_suffix_of(tv.paths[s2])
                        },
                    queue@.no_duplicates(),
                    forall|mm: int| 0 <= mm < queue@.len() ==> 1 <= #[trigger] queue@[mm] < n,
                    forall|t: usize|
                        #[trigger] queue@.contains(t) ==> tv.paths[t as int].len() == 1
                            || reached_before(tv, queue@, head as int - 1, j as int, t),
                    forall|t: usize|
                        1 <= t < n && !queue@.contains(t) ==> rows_view(outputs@)[t as int]
                            == tv.terms[t as int],
                    rows_view(outputs@)[0] == tv.terms[0],
                    registered_upto(tv, tv.kws.len() as int),
                    tv.kws.len() <= usize::MAX,
                    queue_sorted(tv, queue@),
                    depth_one_enqueued(tv, queue@),
                    children_enqueued(tv, queue@, head as int - 1),
                    forall|jj: int|
                        0 <= jj < j ==> queue@.contains(
                            (#[trigger] tv.edges[work as int][jj]).1,
                        ),
                    fails_sem_queue(tv, fails@, queue@),
                    outs_sem_queue(tv, rows_view(outputs@), queue@),
                    outs_ok(tv, rows_view(outputs@), 0),
                decreases m - j,
            {
                let pair = self.states[work][j];
                let c = pair.0;
                let t = pair.1;
                let ghost st_pre = BfsState { queue: queue@, f: fails@, outs: rows_view(outputs@) };
                proof {
                    assert(1 <= t < n);
                    assert(tv.paths[t as int] == tv.paths[work as int].push(c));
                    // The child has not been discovered before: its only
                    // incoming edge is the one being processed now.
                    assert(!queue@.contains(t)) by {
                        if queue@.contains(t) {
                            if tv.paths[t as int].len() == 1 {
                                assert(tv.paths[work as int].len() >= 1);
                            } else {
                                assert(reached_before(tv, queue@, head as int - 1, j as int, t));
                                let (mm, jx) = choose|mm: int, jx: int|
                                    0 <= mm < queue@.len() && 0 <= jx < tv.edges[
                                        queue@[mm] as int
                                    ].len() && (mm < head - 1 || (mm == head - 1 && jx < j)) && (
                                    #[trigger] tv.edges[queue@[mm] as int][jx]).1 == t;
                                lemma_unique_parent(
                                    tv,
                                    queue@[mm] as int,
                                    jx,
                                    work as int,
                                    j as int,
                                );
                                if mm < head - 1 {
                                    assert(queue@[mm] != queue@[head as int - 1]);
                                }
                            }
                        }
                    }
                    assert(rows_view(outputs@)[t as int] == tv.terms[t as int]);
                }
                queue.push(t);
                // Chase failure links from the parent's link until a state
                // has a goto edge on this symbol or the root is reached.
                let mut fs = fails[work - 1];
                proof {
                    assert(fs == fails@[work - 1]);
                    assert(tv.paths[fs as int].len() < tv.paths[work as int].len());
                    assert(tv.paths[fs as int] =~= tv.paths[fs as int].subrange(
                        0,
                        tv.paths[fs as int].len() as int,
                    ));
                }
                while fs != 0 && find_edge(&self.states[fs], c).is_none()
                    invariant
                        tv == self.trie_view(),
                        tv_wf(tv),
                        n == tv.edges.len(),
                        n == self.states@.len(),
                        1 <= work < n,
                        fails_decreasing(tv, fails@),
                        fs < n,
                        chase_from(tv, fails@, fs as int, c) == chase_from(
                            tv,
                            fails@,
                            fails@[work - 1] as int,
                            c,
                        ),
                        tv.paths[fs as int].is_suffix_of(tv.paths[fails@[work - 1] as int]),
                    decreases tv.paths[fs as int].len(),
                {
                    let ghost fs_old = fs as int;
                    fs = fails[fs - 1];
                    proof {
                        lemma_suffix_trans(
                            tv.paths[fs as int],
                            tv.paths[fs_old],
                            tv.paths[fails@[work - 1] as int],
                        );
                    }
                }
                let nf = match find_edge(&self.states[fs], c) {
                    Some(u) => u,
                    None => 0,
                };
                proof {
                    assert(chase_from(tv, fails@, fs as int, c) == fs as int);
                    assert(nf == next_fail(tv, fails@, work as int, c));
                    lemma_chase_bounds(tv, fails@, fails@[work - 1] as int, c);
                    assert(nf < n) by {
                        lemma_edge_lookup_props(tv.edges[fs as int], c);
                    }
                    assert(tv.paths[nf as int].len() < tv.paths[t as int].len()) by {
                        lemma_edge_lookup_props(tv.edges[fs as int], c);
                        if nf != 0 {
                            let jn = choose|jn: int|
                                0 <= jn < tv.edges[fs as int].len() && #[trigger] tv.edges[
                                    fs as int
                                ][jn] == (c, nf);
                            assert(tv.paths[nf as int] == tv.paths[fs as int].push(c));
                        }
                    }
                    assert(t != nf);
                    // The fresh link's path is a suffix of the child's path:
                    // the chase only moves to suffixes, and the goto edge
                    // extends both sides by the same symbol.
                    assert(tv.paths[nf as int].is_suffix_of(tv.paths[t as int])) by {
                        if nf == 0 {
                            assert(tv.paths[0] =~= tv.paths[t as int].subrange(
                                tv.paths[t as int].len() as int,
                                tv.paths[t as int].len() as int,
                            ));
                        } else {
                            lemma_edge_lookup_props(tv.edges[fs as int], c);
                            let jn = choose|jn: int|
                                0 <= jn < tv.edges[fs as int].len() && #[trigger] tv.edges[
                                    fs as int
                                ][jn] == (c, nf);
                            assert(tv.paths[nf as int] == tv.paths[fs as int].push(c));
                            lemma_suffix_trans(
                                tv.paths[fs as int],
                                tv.paths[fails@[work - 1] as int],
                                tv.paths[work as int],
                            );
                            lemma_suffix_push(tv.paths[fs as int], tv.paths[work as int], c);
                        }
                    }
                }
                fails[t - 1] = nf;
                proof {
                    assert(st_pre.outs.len() == n);
                    assert(st_pre.f.len() == n - 1);
                    assert(fails@ == st_pre.f.update(t as int - 1, nf));
                    assert(rows_view(outputs@) == st_pre.outs);
                    assert(outputs@[nf as int]@ == st_pre.outs[nf as int]);
                    assert(outputs@[t as int]@ == st_pre.outs[t as int]);
                }
                // Merge the failure target's outputs into the child's: the
                // child inherits every keyword recognized along its failure
                // chain.
                let tlen = outputs[t].len();
                let mlen = outputs[nf].len();
                let mut newrow: Vec<usize> = Vec::new();
                let mut k: usize = 0;
                while k < tlen
                    invariant
                        outputs@.len() == n,
                        1 <= t < n,
                        nf < n,
                        n == tv.edges.len(),
                        st_pre.outs.len() == n,
                        outputs@[t as int]@ == st_pre.outs[t as int],
                        tlen == st_pre.outs[t as int].len(),
                        k <= tlen,
                        newrow@ == st_pre.outs[t as int].take(k as int),
                    decreases tlen - k,
                {
                    let v = outputs[t][k];
                    newrow.push(v);
                    proof {
                        assert(st_pre.outs[t as int].take(k as int + 1) =~= st_pre.outs[
                            t as int
                        ].take(k as int).push(v));
                    }
                    k += 1;
                }
                proof {
                    assert(st_pre.outs[t as int].take(tlen as int) =~= st_pre.outs[t as int]);
                }
                let mut k2: usize = 0;
                while k2 < mlen
                    invariant
                        outputs@.len() == n,
                        1 <= t < n,
                        nf < n,
                        n == tv.edges.len(),
                        st_pre.outs.len() == n,
                        outputs@[nf as int]@ == st_pre.outs[nf as int],
                        mlen == st_pre.outs[nf as int].len(),
                        k2 <= mlen,
                        newrow@ == st_pre.outs[t as int] + st_pre.outs[nf as int].take(k2 as int),
                    decreases mlen - k2,
                {
                    let v = outputs[nf][k2];
                    newrow.push(v);
                    proof {
                        assert(st_pre.outs[nf as int].take(k2 as int + 1) =~= st_pre.outs[
                            nf as int
                        ].take(k2 as int).push(v));
                        assert(st_pre.outs[t as int] + st_pre.outs[nf as int].take(k2 as int + 1)
                            =~= (st_pre.outs[t as int] + st_pre.outs[nf as int].take(
                            k2 as int,
                        )).push(v));
                    }
                    k2 += 1;
                }
                outputs[t] = newrow;
                proof {
                    assert(st_pre.outs[nf as int].take(mlen as int) =~= st_pre.outs[nf as int]);
                    assert(rows_view(outputs@) =~= st_pre.outs.update(
                        t as int,
                        st_pre.outs[t as int] + st_pre.outs[nf as int],
                    ));
                    let st2 = BfsState {
                        queue: st_pre.queue.push(t),
                        f: st_pre.f.update(t as int - 1, nf),
                        outs: st_pre.outs.update(
                            t as int,
                            st_pre.outs[t as int] + st_pre.outs[nf as int],
                        ),
                    };
                    assert((BfsState { queue: queue@, f: fails@, outs: rows_view(outputs@) })
                        =~= st2);
                    // One unfolding of the spec mirror: this edge's effect.
                    assert(process_edges(tv, st_pre, work as int, j as int) == process_edges(
                        tv,
                        st2,
                        work as int,
                        j as int + 1,
                    ));
                    // The fresh link still decreases depth.
                    assert forall|s2: int| 1 <= s2 < n implies (#[trigger] fails@[s2 - 1]) < n
                        && tv.paths[fails@[s2 - 1] as int].len() < tv.paths[s2].len() by {
                        if s2 != t as int {
                            assert(fails@[s2 - 1] == st_pre.f[s2 - 1]);
                        }
                    }
                    // The child's merged outputs stay duplicate-free: direct
                    // terminals name keywords exactly as long as its path,
                    // inherited ones strictly shorter.
                    assert(st_pre.outs[t as int] == tv.terms[t as int]);
                    assert forall|i1: int, j1: int|
                        #![trigger tv.terms[t as int][i1], st_pre.outs[nf as int][j1]]
                        0 <= i1 < tv.terms[t as int].len() && 0 <= j1 < st_pre.outs[
                            nf as int
                        ].len() implies tv.terms[t as int][i1] != st_pre.outs[nf as int][j1] by {
                        assert(tv.kws[tv.terms[t as int][i1] as int].len() == tv.paths[
                            t as int
                        ].len());
                        assert(tv.kws[st_pre.outs[nf as int][j1] as int].len() <= tv.paths[
                            nf as int
                        ].len());
                    }
                    lemma_concat_distinct(tv.terms[t as int], st_pre.outs[nf as int]);
                    assert forall|s2: int| 0 <= s2 < n implies (
                    #[trigger] outputs@[s2]@).no_duplicates() by {
                        assert(outputs@[s2]@ == rows_view(outputs@)[s2]);
                        if s2 != t as int {
                            assert(rows_view(outputs@)[s2] == st_pre.outs[s2]);
                        }
                    }
                    assert forall|s2: int, jj: int|
                        0 <= s2 < n && 0 <= jj < outputs@[s2]@.len() implies {
                        &&& (#[trigger] outputs@[s2]@[jj]) < tv.kws.len()
                        &&& 1 <= tv.kws[outputs@[s2]@[jj] as int].len() <= tv.paths[s2].len()
                        &&& tv.kws[outputs@[s2]@[jj] as int].is_suffix_of(tv.paths[s2])
                    } by {
                        assert(outputs@[s2]@ == rows_view(outputs@)[s2]);
                        if s2 == t as int {
                            let row = tv.terms[t as int] + st_pre.outs[nf as int];
                            assert(outputs@[s2]@ == row);
                            if jj < tv.terms[t as int].len() {
                                assert(row[jj] == tv.terms[t as int][jj]);
                                assert(tv.kws[row[jj] as int] == tv.paths[t as int]);
                                assert(tv.paths[t as int] =~= tv.paths[t as int].subrange(
                                    0,
                                    tv.paths[t as int].len() as int,
                                ));
                            } else {
                                assert(row[jj] == st_pre.outs[nf as int][jj - tv.terms[
                                    t as int
                                ].len()]);
                                assert(tv.paths[nf as int].len() < tv.paths[t as int].len());
                                lemma_suffix_trans(
                                    tv.kws[row[jj] as int],
                                    tv.paths[nf as int],
                                    tv.paths[t as int],
                                );
                            }
                        } else {
                            assert(rows_view(outputs@)[s2] == st_pre.outs[s2]);
                        }
                    }
                    // The worklist grew by one fresh state.
                    assert forall|m1: int, m2: int|
                        0 <= m1 < m2 < queue@.len() implies queue@[m1] != queue@[m2] by {
                        if m2 == queue@.len() - 1 {
                            assert(queue@[m2] == t);
                            assert(st_pre.queue[m1] == queue@[m1]);
                            if queue@[m1] == t {
                                assert(st_pre.queue.contains(t));
                            }
                        }
                    }
                    assert(queue@.no_duplicates());
                    // Every worklist entry was reached by an already
                    // processed edge.
                    assert forall|t2: usize| #[trigger] queue@.contains(t2) implies tv.paths[
                        t2 as int
                    ].len() == 1 || reached_before(tv, queue@, head as int - 1, j as int + 1, t2)
                        by {
                        let mq = choose|mq: int| 0 <= mq < queue@.len() && queue@[mq] == t2;
                        if mq == queue@.len() - 1 {
                            assert(queue@[head as int - 1] == work);
                            assert((tv.edges[queue@[head as int - 1] as int][j as int]).1 == t2);
                            assert(reached_before(tv, queue@, head as int - 1, j as int + 1, t2));
                        } else {
                            assert(st_pre.queue[mq] == t2);
                            assert(st_pre.queue.contains(t2));
                            if tv.paths[t2 as int].len() != 1 {
                                assert(reached_before(
                                    tv,
                                    st_pre.queue,
                                    head as int - 1,
                                    j as int,
                                    t2,
                                ));
                                let (mm, jx) = choose|mm: int, jx: int|
                                    0 <= mm < st_pre.queue.len() && 0 <= jx < tv.edges[
                                        st_pre.queue[mm] as int
                                    ].len() && (mm < head - 1 || (mm == head - 1 && jx < j)) && (
                                    #[trigger] tv.edges[st_pre.queue[mm] as int][jx]).1 == t2;
                                assert(queue@[mm] == st_pre.queue[mm]);
                                assert((tv.edges[queue@[mm] as int][jx]).1 == t2);
                            }
                        }
                    }
                    // States not yet on the worklist still carry only their
                    // direct terminals.
                    assert forall|t2: usize|
                        1 <= t2 < n && !queue@.contains(t2) implies rows_view(outputs@)[t2 as int]
                        == tv.terms[t2 as int] by {
                        assert(!st_pre.queue.contains(t2)) by {
                            if st_pre.queue.contains(t2) {
                                let mq = choose|mq: int|
                                    0 <= mq < st_pre.queue.len() && st_pre.queue[mq] == t2;
                                assert(queue@[mq] == t2);
                            }
                        }
                        assert(queue@[queue@.len() - 1] == t);
                        assert(queue@.contains(t));
                        assert(t2 != t);
                        assert(rows_view(outputs@)[t2 as int] == st_pre.outs[t2 as int]);
                    }
                    assert(rows_view(outputs@)[0] == st_pre.outs[0]);
                    // --- breadth-first semantics ---
                    // The fresh failure link is the longest suffix, so the
                    // child's merged outputs are exactly its suffix keywords.
                    assert(nf as int == (match edge_lookup(tv.edges[fs as int], c) {
                        Some(u) => u as int,
                        None => 0,
                    }));
                    lemma_new_fail_longest(
                        tv,
                        st_pre.f,
                        st_pre.queue,
                        head as int,
                        c,
                        work as int,
                        t as int,
                        fs as int,
                        nf as int,
                    );
                    assert(fail_ok(tv, fails@, t as int));
                    assert forall|mm: int| 0 <= mm < queue@.len() implies fail_ok(
                        tv,
                        fails@,
                        #[trigger] queue@[mm] as int,
                    ) by {
                        if mm < queue@.len() - 1 {
                            assert(st_pre.queue[mm] == queue@[mm]);
                            assert(fail_ok(tv, st_pre.f, st_pre.queue[mm] as int));
                            assert(queue@[mm] != t) by {
                                if queue@[mm] == t {
                                    assert(st_pre.queue.contains(t));
                                }
                            }
                            assert(fails@[queue@[mm] as int - 1] == st_pre.f[queue@[mm] as int
                                - 1]);
                        } else {
                            assert(queue@[mm] == t);
                        }
                    }
                    assert(fails_sem_queue(tv, fails@, queue@));
                    assert(outs_ok(tv, st_pre.outs, nf as int)) by {
                        if nf != 0 {
                            assert(tv.paths[nf as int].len() <= tv.paths[work as int].len());
                            lemma_fail_target_enqueued(
                                tv,
                                st_pre.queue,
                                head as int,
                                work as int,
                                nf as int,
                            );
                            let mn = choose|mn: int|
                                0 <= mn < st_pre.queue.len() && st_pre.queue[mn] == nf;
                            assert(outs_ok(tv, st_pre.outs, st_pre.queue[mn] as int));
                        }
                    }
                    lemma_merged_outs_ok(tv, st_pre.outs[nf as int], t as int, nf as int);
                    assert(outs_ok(tv, rows_view(outputs@), t as int)) by {
                        assert(rows_view(outputs@)[t as int] == tv.terms[t as int]
                            + st_pre.outs[nf as int]);
                    }
                    assert forall|mm: int| 0 <= mm < queue@.len() implies outs_ok(
                        tv,
                        rows_view(outputs@),
                        #[trigger] queue@[mm] as int,
                    ) by {
                        if mm < queue@.len() - 1 {
                            assert(st_pre.queue[mm] == queue@[mm]);
                            assert(outs_ok(tv, st_pre.outs, st_pre.queue[mm] as int));
                            if queue@[mm] != t {
                                assert(rows_view(outputs@)[queue@[mm] as int] == st_pre.outs[
                                    queue@[mm] as int
                                ]);
                            }
                        } else {
                            assert(queue@[mm] == t);
                        }
                    }
                    assert(outs_sem_queue(tv, rows_view(outputs@), queue@));
                    assert(outs_ok(tv, rows_view(outputs@), 0)) by {
                        assert(rows_view(outputs@)[0] == st_pre.outs[0]);
                    }
                    // The new entry sits one level below the head, which is
                    // at least as deep as everything enqueued so far: the
                    // worklist stays sorted.
                    assert forall|mm: int|
                        0 <= mm < st_pre.queue.len() implies tv.paths[
                        #[trigger] st_pre.queue[mm] as int
                    ].len() <= tv.paths[t as int].len() by {
                        let y = st_pre.queue[mm];
                        assert(st_pre.queue.contains(y));
                        if tv.paths[y as int].len() != 1 {
                            assert(reached_before(tv, st_pre.queue, head as int - 1, j as int, y));
                            let (mm2, jx2) = choose|mm2: int, jx2: int|
                                0 <= mm2 < st_pre.queue.len() && 0 <= jx2 < tv.edges[
                                    st_pre.queue[mm2] as int
                                ].len() && (mm2 < head - 1 || (mm2 == head - 1 && jx2 < j)) && (
                                #[trigger] tv.edges[st_pre.queue[mm2] as int][jx2]).1 == y;
                            assert(tv.paths[st_pre.queue[mm2] as int].len() <= tv.paths[
                                st_pre.queue[head as int - 1] as int
                            ].len());
                            assert(tv.paths[y as int] == tv.paths[st_pre.queue[mm2] as int].push(
                                tv.edges[st_pre.queue[mm2] as int][jx2].0,
                            ));
                        }
                    }
                    assert(queue_sorted(tv, queue@)) by {
                        assert forall|m1: int, m2: int|
                            #![trigger queue@[m1], queue@[m2]]
                            0 <= m1 <= m2 < queue@.len() implies tv.paths[queue@[m1] as int].len()
                            <= tv.paths[queue@[m2] as int].len() by {
                            if m2 < queue@.len() - 1 {
                                assert(queue@[m1] == st_pre.queue[m1]);
                                assert(queue@[m2] == st_pre.queue[m2]);
                            } else if m1 < queue@.len() - 1 {
                                assert(queue@[m1] == st_pre.queue[m1]);
                                assert(queue@[m2] == t);
                            }
                        }
                    }
                    assert forall|x: int|
                        1 <= x < tv.edges.len() && tv.paths[x].len() == 1 implies #[trigger] queue@
                        .contains(x as usize) by {
                        assert(st_pre.queue.contains(x as usize));
                        let mq = choose|mq: int|
                            0 <= mq < st_pre.queue.len() && st_pre.queue[mq] == x as usize;
                        assert(queue@[mq] == x as usize);
                    }
                    assert(depth_one_enqueued(tv, queue@));
                    assert forall|mm: int, jj: int|
                        0 <= mm < head - 1 && mm < queue@.len() && 0 <= jj < tv.edges[
                            queue@[mm] as int
                        ].len() implies queue@.contains(
                        (#[trigger] tv.edges[queue@[mm] as int][jj]).1,
                    ) by {
                        assert(queue@[mm] == st_pre.queue[mm]);
                        assert(st_pre.queue.contains((tv.edges[st_pre.queue[mm] as int][jj]).1));
                        let mq = choose|mq: int|
                            0 <= mq < st_pre.queue.len() && st_pre.queue[mq] == (tv.edges[
                                st_pre.queue[mm] as int
                            ][jj]).1;
                        assert(queue@[mq] == (tv.edges[queue@[mm] as int][jj]).1);
                    }
                    assert(children_enqueued(tv, queue@, head as int - 1));
                    assert forall|jj: int| 0 <= jj < j + 1 implies queue@.contains(
                        (#[trigger] tv.edges[work as int][jj]).1,
                    ) by {
                        if jj < j {
                            assert(st_pre.queue.contains((tv.edges[work as int][jj]).1));
                            let mq = choose|mq: int|
                                0 <= mq < st_pre.queue.len() && st_pre.queue[mq] == (tv.edges[
                                    work as int
                                ][jj]).1;
                            assert(queue@[mq] == (tv.edges[work as int][jj]).1);
                        } else {
                            assert(queue@[queue@.len() - 1] == t);
                        }
                    }
                }
                j += 1;
            }
            proof {
                // All of `work`'s edges are processed: the spec mirror agrees
                // and the worklist stays shorter than the state count.
                lemma_distinct_bounded_len(queue@, n as int);
                assert forall|t2: usize| #[trigger] queue@.contains(t2) implies tv.paths[
                    t2 as int
                ].len() == 1 || reached_before(tv, queue@, head as int, 0, t2) by {
                    if tv.paths[t2 as int].len() != 1 {
                        assert(reached_before(tv, queue@, head as int - 1, m as int, t2));
                        let (mm, jx) = choose|mm: int, jx: int|
                            0 <= mm < queue@.len() && 0 <= jx < tv.edges[queue@[mm] as int].len()
                                && (mm < head - 1 || (mm == head - 1 && jx < m)) && (
                            #[trigger] tv.edges[queue@[mm] as int][jx]).1 == t2;
                        assert(mm < head);
                        assert(reached_before(tv, queue@, head as int, 0, t2));
                    }
                }
                // Every child of a processed entry is enqueued, the head's
                // children included.
                assert forall|mm: int, jj: int|
                    0 <= mm < head && mm < queue@.len() && 0 <= jj < tv.edges[
                        queue@[mm] as int
                    ].len() implies queue@.contains(
                    (#[trigger] tv.edges[queue@[mm] as int][jj]).1,
                ) by {
                    if mm == head - 1 {
                        assert(queue@[head - 1] == work);
                        assert(queue@.contains((tv.edges[work as int][jj]).1));
                    }
                }
                assert(children_enqueued(tv, queue@, head as int));
            }
        }
        proof {
            assert((BfsState { queue: queue@, f: fails@, outs: rows_view(outputs@) }) == bfs_upto(
                tv,
                head as nat,
            ));
            lemma_bfs_stable(tv, head as nat, (n - 1) as nat);
            assert(built_state(tv) == bfs_upto(tv, head as nat));
            // The worklist is exhausted, so it visited every non-root state:
            // all failure links and merged output sets are semantically
            // exact.
            assert forall|s2: int| 1 <= s2 < n implies #[trigger] fail_ok(tv, fails@, s2) by {
                lemma_all_enqueued(tv, queue@, s2);
                let mq = choose|mq: int| 0 <= mq < queue@.len() && queue@[mq] == s2 as usize;
                assert(fail_ok(tv, fails@, queue@[mq] as int));
            }
            assert forall|s2: int| 0 <= s2 < n implies #[trigger] outs_ok(
                tv,
                rows_view(outputs@),
                s2,
            ) by {
                if s2 >= 1 {
                    lemma_all_enqueued(tv, queue@, s2);
                    let mq = choose|mq: int| 0 <= mq < queue@.len() && queue@[mq] == s2 as usize;
                    assert(outs_ok(tv, rows_view(outputs@), queue@[mq] as int));
                }
            }
        }
        self.fails = Some(fails);
        self.outputs = outputs;
        proof {
            assert(self.trie_view() =~= tv);
        }
    }
}

/// The mathematical view of an executable match list: offsets and keyword
/// symbol sequences.
pub open spec fn view_matches(s: Seq<(usize, String)>) -> Seq<(int, Seq<char>)> {
    s.map_values(|m: (usize, String)| (m.0 as int, m.1@))
}

impl AhoCorasick {
    /// One scan step from state `s` on symbol `c`: follow failure links
    /// until a state has a goto edge on `c` and take it, or land at the
    /// root.
    pub closed spec fn step(self, s: int, c: char) -> int
        decreases self.trie_view().paths[s].len()
            when self.wf() && self.built() && 0 <= s < self.trie_view().edges.len()
    {
        match edge_lookup(self.trie_view().edges[s], c) {
            Some(u) => u as int,
            None => if s == 0 {
                0
            } else {
                self.step(self.fails_view()[s - 1] as int, c)
            },
        }
    }

    /// The state reached after scanning the first `i` symbols of `t`.
    pub closed spec fn state_at(self, t: Seq<char>, i: int) -> int
        decreases i,
    {
        if i <= 0 {
            0
        } else {
            self.step(self.state_at(t, i - 1), t[i - 1])
        }
    }

    /// The matches reported on consuming symbol `i` of `t`: one per entry of
    /// the reached state's output set, as a (start offset, keyword) pair,
    /// offsets counted in symbols.
    pub closed spec fn emissions(self, t: Seq<char>, i: int) -> Seq<(int, Seq<char>)> {
        let s = self.state_at(t, i + 1);
        self.outs_view()[s].map_values(
            |k: usize| (i + 1 - self.kws()[k as int].len(), self.kws()[k as int]),
        )
    }

    /// Every match reported while scanning the first `upto` symbols of `t`,
    /// in scan order: ordered by the position where each match ends.
    pub closed spec fn scan_matches(self, t: Seq<char>, upto: int) -> Seq<(int, Seq<char>)>
        decreases upto,
    {
        if upto <= 0 {
            Seq::empty()
        } else {
            self.scan_matches(t, upto - 1) + self.emissions(t, upto - 1)
        }
    }

    /// A scan step stays in the trie and descends at most one level.
    proof fn lemma_step_in_range(self, s: int, c: char)
        requires
            self.wf(),
            self.built(),
            0 <= s < self.trie_view().edges.len(),
        ensures
            0 <= self.step(s, c) < self.trie_view().edges.len(),
            self.trie_view().paths[self.step(s, c)].len() <= self.trie_view().paths[s].len() + 1,
        decreases self.trie_view().paths[s].len(),
    {
        let tv = self.trie_view();
        lemma_edge_lookup_props(tv.edges[s], c);
        match edge_lookup(tv.edges[s], c) {
            Some(u) => {
                let j = choose|j: int|
                    0 <= j < tv.edges[s].len() && #[trigger] tv.edges[s][j] == (c, u);
                assert(tv.paths[u as int] == tv.paths[s].push(c));
            },
            None => {
                if s != 0 {
                    self.lemma_step_in_range(self.fails_view()[s - 1] as int, c);
                }
            },
        }
    }

    /// The state reached after any prefix is a trie state no deeper than
    /// the number of symbols read.
    proof fn lemma_state_at_in_range(self, t: Seq<char>, i: int)
        requires
            self.wf(),
            self.built(),
            0 <= i,
        ensures
            0 <= self.state_at(t, i) < self.trie_view().edges.len(),
            self.trie_view().paths[self.state_at(t, i)].len() <= i,
        decreases i,
    {
        if i > 0 {
            self.lemma_state_at_in_range(t, i - 1);
            self.lemma_step_in_range(self.state_at(t, i - 1), t[i - 1]);
        }
    }

    /// Scans `text` once, left to right, and returns every occurrence of
    /// every keyword as a (start offset, keyword) pair, overlapping matches
    /// included, ordered by the position where each match ends.  Offsets
    /// are counted in symbols, never in encoded storage units.  Stale
    /// failure links are rebuilt first; matching itself changes nothing.
    pub fn match_(&mut self, text: &str) -> (ret: Vec<(usize, String)>)
        requires
            old(self).wf(),
        ensures
            final(self).wf(),
            final(self).built(),
            final(self).trie_view() == old(self).trie_view(),
            old(self).built() ==> *final(self) == *old(self),
            view_matches(ret@) == final(self).scan_matches(text@, text@.len() as int),
    {
        self.build();
        let text_len = text.unicode_len();
        let mut ret: Vec<(usize, String)> = Vec::new();
        let mut state: usize = 0;
        let mut i: usize = 0;
        while i < text_len
            invariant
                self.wf(),
                self.built(),
                text_len == text@.len(),
                i <= text_len,
                state < self.trie_view().edges.len(),
                self.trie_view().paths[state as int].len() <= i,
                state as int == self.state_at(text@, i as int),
                view_matches(ret@) == self.scan_matches(text@, i as int),
                self.states@.len() == self.trie_view().edges.len(),
                self.outputs@.len() == self.trie_view().edges.len(),
            decreases text_len - i,
        {
            let ghost tv = self.trie_view();
            let c = text.get_char(i);
            let ghost s0 = state as int;
            let fails = match &self.fails {
                Some(f) => f,
                None => vstd::pervasive::unreached(),
            };
            while state != 0 && find_edge(&self.states[state], c).is_none()
                invariant
                    self.wf(),
                    self.built(),
                    tv == self.trie_view(),
                    fails@ == self.fails_view(),
                    self.states@.len() == tv.edges.len(),
                    state < tv.edges.len(),
                    tv.paths[state as int].len() <= tv.paths[s0].len(),
                    0 <= s0 < tv.edges.len(),
                    self.step(state as int, c) == self.step(s0, c),
                decreases tv.paths[state as int].len(),
            {
                state = fails[state - 1];
            }
            state = match find_edge(&self.states[state], c) {
                Some(u) => u,
                None => 0,
            };
            proof {
                self.lemma_step_in_range(s0, c);
                assert(state as int == self.step(s0, c)) by {
                    lemma_edge_lookup_props(tv.edges[self.step(s0, c)], c);
                }
                assert(state as int == self.state_at(text@, i as int + 1));
                assert(tv.paths[state as int].len() <= i + 1);
            }
            // Report one match per keyword in the reached state's output
            // set: it ends at this symbol.
            let row_len = self.outputs[state].len();
            let mut k: usize = 0;
            while k < row_len
                invariant
                    self.wf(),
                    self.built(),
                    tv == self.trie_view(),
                    text_len == text@.len(),
                    i < text_len,
                    state < tv.edges.len(),
                    state as int == self.state_at(text@, i as int + 1),
                    tv.paths[state as int].len() <= i + 1,
                    self.outputs@.len() == tv.edges.len(),
                    self.states@.len() == tv.edges.len(),
                    row_len == self.outs_view()[state as int].len(),
                    k <= row_len,
                    view_matches(ret@) == self.scan_matches(text@, i as int) + self.emissions(
                        text@,
                        i as int,
                    ).take(k as int),
                decreases row_len - k,
            {
                let kw_idx = self.outputs[state][k];
                proof {
                    assert(self.outs_view()[state as int] == self.outputs@[state as int]@);
                    assert(self.outs_view()[state as int][k as int] == kw_idx);
                    assert(kw_idx < self.kws().len());
                    assert(self.kws()[kw_idx as int] == self.keywords@[kw_idx as int]@);
                    assert(1 <= self.kws()[kw_idx as int].len() <= tv.paths[state as int].len());
                }
                let kw_len = self.kw_lens[kw_idx];
                let kw = self.keywords[kw_idx].clone();
                proof {
                    assert(kw_len == self.kws()[kw_idx as int].len());
                    assert(kw@ == self.kws()[kw_idx as int]);
                }
                let ghost vm_pre = view_matches(ret@);
                let ghost kwv = kw@;
                ret.push((i + 1 - kw_len, kw));
                proof {
                    assert(self.emissions(text@, i as int)[k as int] == (
                        i + 1 - self.kws()[kw_idx as int].len(),
                        self.kws()[kw_idx as int],
                    ));
                    assert(self.emissions(text@, i as int).take(k as int + 1) =~= self.emissions(
                        text@,
                        i as int,
                    ).take(k as int).push(self.emissions(text@, i as int)[k as int]));
                    assert(ret@[ret@.len() - 1].0 == i + 1 - kw_len);
                    assert(ret@[ret@.len() - 1].1@ == kwv);
                    assert(self.emissions(text@, i as int).len() == row_len);
                    assert(vm_pre.len() == self.scan_matches(text@, i as int).len() + k);
                    assert forall|mi: int| 0 <= mi < ret@.len() implies #[trigger] view_matches(
                        ret@,
                    )[mi] == (self.scan_matches(text@, i as int) + self.emissions(text@, i as int)
                        .take(k as int + 1))[mi] by {
                        assert(view_matches(ret@)[mi] == (ret@[mi].0 as int, ret@[mi].1@));
                        if mi < ret@.len() - 1 {
                            assert(view_matches(ret@)[mi] == vm_pre[mi]);
                        } else {
                            assert((self.scan_matches(text@, i as int) + self.emissions(
                                text@,
                                i as int,
                            ).take(k as int + 1))[mi] == self.emissions(text@, i as int)[k as int]);
                        }
                    }
                    assert(view_matches(ret@) =~= self.scan_matches(text@, i as int)
                        + self.emissions(text@, i as int).take(k as int + 1));
                }
                k += 1;
            }
            proof {
                assert(self.emissions(text@, i as int).take(row_len as int) =~= self.emissions(
                    text@,
                    i as int,
                ));
                assert(view_matches(ret@) == self.scan_matches(text@, i as int + 1));
            }
            i += 1;
        }
        ret
    }
}

/// Lazy multi-pattern matcher: a resumable cursor over a text.  Each pull
/// yields one pending match of the current state's output set, or consumes
/// one more symbol and begins yielding the reached state's outputs, or
/// reports exhaustion.  Not pulling further cancels the scan; no work
/// happens between pulls.
pub struct MatchIter<'a, 'b> {
    ac: &'a AhoCorasick,
    text: &'b str,
    state: usize,
    // Symbols consumed so far.
    pos: usize,
    // The symbol length of the text, computed once up front.
    text_len: usize,
    // How many outputs of the current state were already yielded.
    out_idx: usize,
}

impl<'a, 'b> MatchIter<'a, 'b> {
    /// The automaton this cursor scans with.
    pub closed spec fn automaton(&self) -> AhoCorasick {
        *self.ac
    }

    /// The text being scanned.
    pub closed spec fn text(&self) -> Seq<char> {
        self.text@
    }

    /// How many symbols of the text have been consumed.
    pub closed spec fn position(&self) -> int {
        self.pos as int
    }

    /// The matches yielded so far: everything the eager scan reports for the
    /// consumed symbols, except the current state's not yet pulled outputs.
    pub closed spec fn emitted(&self) -> Seq<(int, Seq<char>)> {
        if self.pos == 0 {
            Seq::empty()
        } else {
            self.ac.scan_matches(self.text@, self.pos as int - 1) + self.ac.emissions(
                self.text@,
                self.pos as int - 1,
            ).take(self.out_idx as int)
        }
    }

    /// The cursor is consistent with its automaton and text.
    pub closed spec fn inv(&self) -> bool {
        &&& self.ac.wf()
        &&& self.ac.built()
        &&& self.text_len == self.text@.len()
        &&& self.pos <= self.text_len
        &&& 0 <= (self.state as int) < self.ac.trie_view().edges.len()
        &&& self.state as int == self.ac.state_at(self.text@, self.pos as int)
        &&& self.ac.trie_view().paths[self.state as int].len() <= self.pos as int
        &&& self.out_idx <= self.ac.outs_view()[self.state as int].len()
        &&& (self.pos == 0 ==> self.out_idx == 0)
    }

    /// Pulls the next match.  Yields the next pending entry of the current
    /// state's output set if any remains; otherwise consumes symbols one at
    /// a time, with the same goto/fail transitions as the eager scan, until
    /// a state with outputs is reached; yields nothing once the text is
    /// exhausted with no pending output.
    pub fn next(&mut self) -> (ret: Option<(usize, String)>)
        requires
            old(self).inv(),
        ensures
            final(self).inv(),
            final(self).automaton() == old(self).automaton(),
            final(self).text() == old(self).text(),
            old(self).position() <= final(self).position(),
            match ret {
                Some(m) => final(self).emitted() == old(self).emitted().push(
                    (m.0 as int, m.1@),
                ),
                None => {
                    &&& final(self).emitted() == old(self).emitted()
                    &&& final(self).position() == final(self).text().len()
                    &&& final(self).emitted() == final(self).automaton().scan_matches(
                        final(self).text(),
                        final(self).text().len() as int,
                    )
                },
            },
    {
        let ghost tv = self.ac.trie_view();
        loop
            invariant
                self.ac.wf(),
                self.ac.built(),
                tv == self.ac.trie_view(),
                self.ac == old(self).ac,
                self.text == old(self).text,
                self.text_len == self.text@.len(),
                self.pos <= self.text_len,
                0 <= (self.state as int) < tv.edges.len(),
                self.state as int == self.ac.state_at(self.text@, self.pos as int),
                tv.paths[self.state as int].len() <= self.pos as int,
                self.out_idx <= self.ac.outs_view()[self.state as int].len(),
                self.pos == 0 ==> self.out_idx == 0,
                old(self).pos <= self.pos,
                self.emitted() == old(self).emitted(),
                self.ac.states@.len() == tv.edges.len(),
                self.ac.outputs@.len() == tv.edges.len(),
            decreases self.text_len - self.pos, self.ac.outs_view()[self.state as int].len()
                - self.out_idx,
        {
            let row_len = self.ac.outputs[self.state].len();
            proof {
                assert(self.ac.outs_view()[self.state as int] == self.ac.outputs@[
                    self.state as int
                ]@);
            }
            if self.out_idx < row_len {
                // A pending output remains: yield it.
                proof {
                    // The root has no outputs, so a pending output means at
                    // least one symbol was consumed.
                    if self.pos == 0 {
                        assert(tv.paths[0].len() == 0);
                        assert(self.ac.outs_view()[0][0] < tv.kws.len());
                        assert(1 <= tv.kws[self.ac.outs_view()[0][0] as int].len() <= 0);
                    }
                }
                let kw_idx = self.ac.outputs[self.state][self.out_idx];
                let kw_len = self.ac.kw_lens[kw_idx];
                let kw = self.ac.keywords[kw_idx].clone();
                proof {
                    assert(self.ac.outs_view()[self.state as int][self.out_idx as int] == kw_idx);
                    assert(kw_idx < self.ac.kws().len());
                    assert(1 <= self.ac.kws()[kw_idx as int].len() <= tv.paths[
                        self.state as int
                    ].len());
                    assert(kw_len == self.ac.kws()[kw_idx as int].len());
                    assert(kw@ == self.ac.kws()[kw_idx as int]);
                    assert(self.ac.emissions(self.text@, self.pos as int - 1)[
                        self.out_idx as int
                    ] == (self.pos - self.ac.kws()[kw_idx as int].len(), self.ac.kws()[
                        kw_idx as int
                    ]));
                }
                let ghost em_pre = self.emitted();
                let ret_pos = self.pos - kw_len;
                self.out_idx = self.out_idx + 1;
                proof {
                    assert(self.ac.emissions(self.text@, self.pos as int - 1).take(
                        self.out_idx as int,
                    ) =~= self.ac.emissions(self.text@, self.pos as int - 1).take(
                        self.out_idx as int - 1,
                    ).push(self.ac.emissions(self.text@, self.pos as int - 1)[
                        self.out_idx as int - 1
                    ]));
                    assert(self.emitted() =~= em_pre.push(
                        (ret_pos as int, kw@),
                    ));
                }
                return Some((ret_pos, kw));
            }
            if self.pos < self.text_len {
                // Consume one more symbol with a goto/fail transition.
                let ghost em_pre = self.emitted();
                proof {
                    if self.pos > 0 {
                        assert(self.ac.emissions(self.text@, self.pos as int - 1).take(
                            self.out_idx as int,
                        ) =~= self.ac.emissions(self.text@, self.pos as int - 1));
                        assert(em_pre == self.ac.scan_matches(self.text@, self.pos as int));
                    }
                }
                let c = self.text.get_char(self.pos);
                let ghost s0 = self.state as int;
                let mut state = self.state;
                let fails = match &self.ac.fails {
                    Some(f) => f,
                    None => vstd::pervasive::unreached(),
                };
                while state != 0 && find_edge(&self.ac.states[state], c).is_none()
                    invariant
                        self.ac.wf(),
                        self.ac.built(),
                        tv == self.ac.trie_view(),
                        fails@ == self.ac.fails_view(),
                        self.ac.states@.len() == tv.edges.len(),
                        state < tv.edges.len(),
                        tv.paths[state as int].len() <= tv.paths[s0].len(),
                        0 <= s0 < tv.edges.len(),
                        self.ac.step(state as int, c) == self.ac.step(s0, c),
                    decreases tv.paths[state as int].len(),
                {
                    state = fails[state - 1];
                }
                state = match find_edge(&self.ac.states[state], c) {
                    Some(u) => u,
                    None => 0,
                };
                proof {
                    self.ac.lemma_step_in_range(s0, c);
                    assert(state as int == self.ac.step(s0, c)) by {
                        lemma_edge_lookup_props(tv.edges[self.ac.step(s0, c)], c);
                    }
                }
                self.state = state;
                self.pos = self.pos + 1;
                self.out_idx = 0;
                proof {
                    assert(self.state as int == self.ac.state_at(self.text@, self.pos as int));
                    assert(self.ac.emissions(self.text@, self.pos as int - 1).take(0)
                        =~= Seq::<(int, Seq<char>)>::empty());
                    assert(self.emitted() =~= em_pre);
                }
            } else {
                proof {
                    if self.pos > 0 {
                        assert(self.ac.emissions(self.text@, self.pos as int - 1).take(
                            self.out_idx as int,
                        ) =~= self.ac.emissions(self.text@, self.pos as int - 1));
                    }
                    assert(self.emitted() == self.ac.scan_matches(
                        self.text@,
                        self.pos as int,
                    ));
                }
                return None;
            }
        }
    }
}

impl AhoCorasick {
    /// Starts a lazy scan of `text`: a forward-only, non-restartable cursor
    /// with the same match semantics as the eager scan.  Stale failure links
    /// are rebuilt first.
    pub fn match_iter<'a, 'b>(&'a mut self, text: &'b str) -> (ret: MatchIter<'a, 'b>)
        requires
            old(self).wf(),
        ensures
            ret.inv(),
            ret.automaton().trie_view() == old(self).trie_view(),
            ret.automaton().wf(),
            ret.automaton().built(),
            ret.text() == text@,
            ret.emitted() == Seq::<(int, Seq<char>)>::empty(),
            ret.position() == 0,
    {
        self.build();
        let text_len = text.unicode_len();
        MatchIter { ac: self, text, state: 0, pos: 0, text_len, out_idx: 0 }
    }
}

/// Scanning more symbols only appends matches: the match list of a prefix
/// of the text is a prefix of the match list of the whole text.
pub proof fn lemma_scan_prefix(a: AhoCorasick, t: Seq<char>, i: int, j: int)
    requires
        0 <= i <= j,
    ensures
        a.scan_matches(t, i).len() <= a.scan_matches(t, j).len(),
        a.scan_matches(t, i).is_prefix_of(a.scan_matches(t, j)),
    decreases j - i,
{
    if j > i {
        lemma_scan_prefix(a, t, i, j - 1);
        assert(a.scan_matches(t, j) == a.scan_matches(t, j - 1) + a.emissions(t, j - 1));
        assert(a.scan_matches(t, i) =~= a.scan_matches(t, j).subrange(
            0,
            a.scan_matches(t, i).len() as int,
        ));
    } else {
        assert(a.scan_matches(t, i) =~= a.scan_matches(t, j).subrange(
            0,
            a.scan_matches(t, i).len() as int,
        ));
    }
}

/// The eager and the lazy matcher agree.  Whatever a lazy cursor has
/// yielded so far is a prefix of the eager matcher's list for the same
/// automaton and text, and once the cursor has yielded as many matches as
/// that list holds, the two are equal: same members, same order.
pub proof fn lemma_lazy_agrees_with_eager<'a, 'b>(it: MatchIter<'a, 'b>)
    requires
        it.inv(),
    ensures
        it.emitted().is_prefix_of(
            it.automaton().scan_matches(it.text(), it.text().len() as int),
        ),
        it.emitted().len() == it.automaton().scan_matches(it.text(), it.text().len() as int).len()
            ==> it.emitted() == it.automaton().scan_matches(it.text(), it.text().len() as int),
{
    let a = it.automaton();
    let t = it.text();
    let full = a.scan_matches(t, t.len() as int);
    if it.position() == 0 {
        assert(it.emitted() =~= full.subrange(0, 0));
    } else {
        let p = it.position();
        assert(a.scan_matches(t, p) == a.scan_matches(t, p - 1) + a.emissions(t, p - 1));
        lemma_scan_prefix(a, t, p, t.len() as int);
        assert forall|m: int| 0 <= m < it.emitted().len() implies it.emitted()[m] == full[m] by {
            assert(a.scan_matches(t, p)[m] == full[m]) by {
                assert(a.scan_matches(t, p) =~= full.subrange(0, a.scan_matches(t, p).len() as int));
            }
        }
        assert(it.emitted().len() <= a.scan_matches(t, p).len());
        assert(it.emitted() =~= full.subrange(0, it.emitted().len() as int));
    }
    if it.emitted().len() == full.len() {
        assert(it.emitted() =~= full);
    }
}

/// One scan step depends only on the trie and the (trie-determined) failure
/// links.
proof fn lemma_step_same(a: AhoCorasick, b: AhoCorasick, s: int, c: char)
    requires
        a.wf(),
        b.wf(),
        a.built(),
        b.built(),
        a.trie_view() == b.trie_view(),
        0 <= s < a.trie_view().edges.len(),
    ensures
        a.step(s, c) == b.step(s, c),
    decreases a.trie_view().paths[s].len(),
{
    let tv = a.trie_view();
    match edge_lookup(tv.edges[s], c) {
        Some(u) => {},
        None => {
            if s != 0 {
                lemma_step_same(a, b, a.fails_view()[s - 1] as int, c);
            }
        },
    }
}

/// The state reached after a prefix depends only on the trie.
proof fn lemma_state_at_same(a: AhoCorasick, b: AhoCorasick, t: Seq<char>, i: int)
    requires
        a.wf(),
        b.wf(),
        a.built(),
        b.built(),
        a.trie_view() == b.trie_view(),
        0 <= i,
    ensures
        a.state_at(t, i) == b.state_at(t, i),
    decreases i,
{
    if i > 0 {
        lemma_state_at_same(a, b, t, i - 1);
        a.lemma_state_at_in_range(t, i - 1);
        lemma_step_same(a, b, a.state_at(t, i - 1), t[i - 1]);
    }
}

/// Matching is a function of the keyword trie alone.  Two automatons with
/// the same trie report the same matches once built, however their derived
/// state came about: inserting a keyword after a build and then matching
/// behaves exactly as if it had been inserted before any build, because a
/// rebuild starts from scratch and no stale artifact survives it.
pub proof fn lemma_same_trie_same_matches(a: AhoCorasick, b: AhoCorasick, t: Seq<char>, upto: int)
    requires
        a.wf(),
        b.wf(),
        a.built(),
        b.built(),
        a.trie_view() == b.trie_view(),
    ensures
        a.fails_view() == b.fails_view(),
        a.outs_view() == b.outs_view(),
        a.scan_matches(t, upto) == b.scan_matches(t, upto),
    decreases upto,
{
    if upto > 0 {
        lemma_same_trie_same_matches(a, b, t, upto - 1);
        a.lemma_state_at_in_range(t, upto);
        lemma_state_at_same(a, b, t, upto);
        assert(a.emissions(t, upto - 1) =~= b.emissions(t, upto - 1));
        assert(a.scan_matches(t, upto) =~= b.scan_matches(t, upto));
    }
}

impl AhoCorasick {
    /// A scan step from a state whose path is a suffix of the consumed text
    /// reaches a state whose path is a suffix of the text extended by the
    /// consumed symbol.
    proof fn lemma_step_suffix(self, s: int, c: char, p: Seq<char>)
        requires
            self.wf(),
            self.built(),
            0 <= s < self.trie_view().edges.len(),
            self.trie_view().paths[s].is_suffix_of(p),
        ensures
            self.trie_view().paths[self.step(s, c)].is_suffix_of(p.push(c)),
        decreases self.trie_view().paths[s].len(),
    {
        let tv = self.trie_view();
        self.lemma_step_in_range(s, c);
        match edge_lookup(tv.edges[s], c) {
            Some(u) => {
                lemma_edge_lookup_props(tv.edges[s], c);
                let j = choose|j: int|
                    0 <= j < tv.edges[s].len() && #[trigger] tv.edges[s][j] == (c, u);
                assert(tv.paths[u as int] == tv.paths[s].push(c));
                lemma_suffix_push(tv.paths[s], p, c);
            },
            None => {
                if s == 0 {
                    assert(tv.paths[0] =~= p.push(c).subrange(
                        p.push(c).len() as int,
                        p.push(c).len() as int,
                    ));
                } else {
                    let f = self.fails_view()[s - 1] as int;
                    lemma_suffix_trans(tv.paths[f], tv.paths[s], p);
                    self.lemma_step_suffix(f, c, p);
                }
            },
        }
    }

    /// After scanning `i` symbols, the reached state's path is a suffix of
    /// those symbols: the scan tracks the longest useful context.
    proof fn lemma_state_at_suffix(self, t: Seq<char>, i: int)
        requires
            self.wf(),
            self.built(),
            0 <= i <= t.len(),
        ensures
            self.trie_view().paths[self.state_at(t, i)].is_suffix_of(t.take(i)),
        decreases i,
    {
        let tv = self.trie_view();
        if i == 0 {
            assert(tv.paths[0] =~= t.take(0).subrange(0, 0));
        } else {
            self.lemma_state_at_suffix(t, i - 1);
            self.lemma_state_at_in_range(t, i - 1);
            self.lemma_step_suffix(self.state_at(t, i - 1), t[i - 1], t.take(i - 1));
            assert(t.take(i - 1).push(t[i - 1]) =~= t.take(i));
        }
    }
}

/// The failure link of every non-root state of a built automaton reaches
/// the state spelling the longest proper suffix of its path that is itself
/// a trie path.
pub proof fn lemma_failure_links_longest_suffix(a: AhoCorasick, s: int)
    requires
        a.wf(),
        a.built(),
        1 <= s < a.trie_view().edges.len(),
    ensures
        fail_ok(a.trie_view(), a.fails_view(), s),
{
}

/// The merged output set of every state of a built automaton holds exactly
/// the keywords whose symbols spell a suffix of the state's path: its own
/// terminal keywords and the ones inherited along failure links.
pub proof fn lemma_outputs_characterize(a: AhoCorasick, s: int)
    requires
        a.wf(),
        a.built(),
        0 <= s < a.trie_view().edges.len(),
    ensures
        outs_ok(a.trie_view(), a.outs_view(), s),
{
}

impl AhoCorasick {
    /// A scan step reaches the state of the longest trie path that is a
    /// suffix of the previous state's path extended by the consumed symbol.
    proof fn lemma_step_longest(self, s: int, c: char)
        requires
            self.wf(),
            self.built(),
            0 <= s < self.trie_view().edges.len(),
        ensures
            forall|x: int|
                0 <= x < self.trie_view().edges.len() && (#[trigger] self.trie_view().paths[
                    x
                ].is_suffix_of(self.trie_view().paths[s].push(c)))
                    ==> self.trie_view().paths[x].len() <= self.trie_view().paths[self.step(
                    s,
                    c,
                )].len(),
        decreases self.trie_view().paths[s].len(),
    {
        let tv = self.trie_view();
        self.lemma_step_in_range(s, c);
        match edge_lookup(tv.edges[s], c) {
            Some(u) => {
                lemma_edge_lookup_props(tv.edges[s], c);
                let ju = choose|ju: int|
                    0 <= ju < tv.edges[s].len() && #[trigger] tv.edges[s][ju] == (c, u);
                assert(tv.paths[u as int] == tv.paths[s].push(c));
            },
            None => {
                lemma_edge_lookup_props(tv.edges[s], c);
                if s == 0 {
                    assert forall|x: int|
                        0 <= x < tv.edges.len() && (#[trigger] tv.paths[x].is_suffix_of(
                            tv.paths[0].push(c),
                        )) implies tv.paths[x].len() <= tv.paths[self.step(0, c)].len() by {
                        if tv.paths[x].len() >= 1 {
                            lemma_suffix_peel(tv.paths[x], tv.paths[0], c);
                            let (px, jx) = lemma_parent_edge(tv, x);
                            assert(px == 0) by {
                                if px >= 1 {
                                    assert(tv.paths[px].len() >= 1);
                                }
                            }
                            assert((tv.edges[0][jx]).0 != c);
                        }
                    }
                } else {
                    let fs = self.fails_view()[s - 1] as int;
                    assert(fail_ok(tv, self.fails_view(), s));
                    self.lemma_step_longest(fs, c);
                    assert forall|x: int|
                        0 <= x < tv.edges.len() && (#[trigger] tv.paths[x].is_suffix_of(
                            tv.paths[s].push(c),
                        )) implies tv.paths[x].len() <= tv.paths[self.step(s, c)].len() by {
                        if tv.paths[x].len() >= 1 {
                            lemma_suffix_peel(tv.paths[x], tv.paths[s], c);
                            let (px, jx) = lemma_parent_edge(tv, x);
                            assert(tv.paths[px].len() < tv.paths[s].len()) by {
                                if tv.paths[px].len() == tv.paths[s].len() {
                                    assert(tv.paths[px] =~= tv.paths[s]);
                                    assert(px == s) by {
                                        if px != s {
                                            assert(tv.paths[px] != tv.paths[s]);
                                        }
                                    }
                                    assert((tv.edges[s][jx]).0 != c);
                                }
                            }
                            assert(tv.paths[px].len() <= tv.paths[fs].len());
                            lemma_suffix_of_suffix(tv.paths[px], tv.paths[fs], tv.paths[s]);
                            lemma_suffix_push(tv.paths[px], tv.paths[fs], c);
                            assert(tv.paths[x] == tv.paths[px].push(c));
                            assert(tv.paths[x].is_suffix_of(tv.paths[fs].push(c)));
                        }
                    }
                }
            },
        }
    }

    /// After scanning any prefix of the text, the reached state spells the
    /// longest suffix of that prefix that is a trie path: the scan never
    /// loses a context that could still extend to a keyword.
    proof fn lemma_state_at_longest(self, t: Seq<char>, i: int)
        requires
            self.wf(),
            self.built(),
            0 <= i <= t.len(),
        ensures
            forall|x: int|
                0 <= x < self.trie_view().edges.len() && (#[trigger] self.trie_view().paths[
                    x
                ].is_suffix_of(t.take(i))) ==> self.trie_view().paths[x].len()
                    <= self.trie_view().paths[self.state_at(t, i)].len(),
        decreases i,
    {
        let tv = self.trie_view();
        if i == 0 {
            assert forall|x: int|
                0 <= x < tv.edges.len() && (#[trigger] tv.paths[x].is_suffix_of(
                    t.take(0),
                )) implies tv.paths[x].len() <= tv.paths[self.state_at(t, 0)].len() by {}
        } else {
            self.lemma_state_at_longest(t, i - 1);
            self.lemma_state_at_in_range(t, i - 1);
            self.lemma_state_at_suffix(t, i - 1);
            let s = self.state_at(t, i - 1);
            let c = t[i - 1];
            self.lemma_step_longest(s, c);
            assert(t.take(i) =~= t.take(i - 1).push(c));
            assert forall|x: int|
                0 <= x < tv.edges.len() && (#[trigger] tv.paths[x].is_suffix_of(
                    t.take(i),
                )) implies tv.paths[x].len() <= tv.paths[self.state_at(t, i)].len() by {
                if tv.paths[x].len() >= 1 {
                    lemma_suffix_peel(tv.paths[x], t.take(i - 1), c);
                    let (px, jx) = lemma_parent_edge(tv, x);
                    assert(tv.paths[px].is_suffix_of(t.take(i - 1)));
                    assert(tv.paths[px].len() <= tv.paths[s].len());
                    lemma_suffix_of_suffix(tv.paths[px], tv.paths[s], t.take(i - 1));
                    lemma_suffix_push(tv.paths[px], tv.paths[s], c);
                    assert(tv.paths[x] == tv.paths[px].push(c));
                    assert(tv.paths[x].is_suffix_of(tv.paths[s].push(c)));
                }
            }
        }
    }
}

/// Completeness of the scan: every occurrence of every registered keyword
/// that ends within the scanned prefix is reported, overlapping occurrences
/// included.
pub proof fn lemma_scan_matches_complete(a: AhoCorasick, t: Seq<char>, upto: int, k: int, j: int)
    requires
        a.wf(),
        a.built(),
        0 <= upto <= t.len(),
        0 <= k < a.kws().len(),
        0 <= j,
        j + a.kws()[k].len() <= upto,
        a.kws()[k] == t.subrange(j, j + a.kws()[k].len() as int),
    ensures
        a.scan_matches(t, upto).contains((j, a.kws()[k])),
{
    let tv = a.trie_view();
    let kw = a.kws()[k];
    let ll = kw.len() as int;
    let e = j + ll;
    assert(kw.len() >= 1);
    assert(kw.is_suffix_of(t.take(e))) by {
        assert forall|x: int| 0 <= x < ll implies #[trigger] kw[x] == t.take(e)[e - ll + x] by {
            assert(kw[x] == t.subrange(j, e)[x]);
        }
        assert(kw =~= t.take(e).subrange(e - ll, e));
    }
    assert(is_registered(tv, k));
    let (sk, jk) = choose|sk: int, jk: int|
        0 <= sk < tv.terms.len() && 0 <= jk < tv.terms[sk].len() && #[trigger] tv.terms[sk][jk]
            == k;
    assert(tv.kws[k] == tv.paths[sk]);
    let se = a.state_at(t, e);
    a.lemma_state_at_in_range(t, e);
    a.lemma_state_at_suffix(t, e);
    a.lemma_state_at_longest(t, e);
    assert(tv.paths[sk].len() <= tv.paths[se].len());
    lemma_suffix_of_suffix(kw, tv.paths[se], t.take(e));
    lemma_outputs_characterize(a, se);
    assert(a.outs_view()[se].contains(k as usize));
    assert(tv.kws.len() <= usize::MAX) by {
        assert(tv.kws.len() == a.keywords@.len());
        assert(a.keywords@.len() == vstd::std_specs::vec::spec_vec_len(&a.keywords));
    }
    let mk = choose|mk: int|
        0 <= mk < a.outs_view()[se].len() && a.outs_view()[se][mk] == k as usize;
    assert(a.emissions(t, e - 1)[mk] == (j, kw)) by {
        assert((k as usize) as int == k);
        assert(a.emissions(t, e - 1)[mk] == (
            e - a.kws()[k].len(),
            a.kws()[k],
        ));
    }
    assert(a.scan_matches(t, e).contains((j, kw))) by {
        assert(a.scan_matches(t, e) == a.scan_matches(t, e - 1) + a.emissions(t, e - 1));
        assert(a.emissions(t, e - 1).len() == a.outs_view()[se].len());
        let idx = a.scan_matches(t, e - 1).len() + mk;
        assert(a.scan_matches(t, e)[idx] == a.emissions(t, e - 1)[mk]);
    }
    lemma_scan_prefix(a, t, e, upto);
    let idx2 = choose|idx2: int|
        0 <= idx2 < a.scan_matches(t, e).len() && a.scan_matches(t, e)[idx2] == (j, kw);
    assert(a.scan_matches(t, upto)[idx2] == (j, kw)) by {
        assert(a.scan_matches(t, e) =~= a.scan_matches(t, upto).subrange(
            0,
            a.scan_matches(t, e).len() as int,
        ));
    }
}

/// Soundness of the scan: every reported pair is a genuine occurrence of a
/// registered keyword.  The keyword's symbols stand in the text at the
/// reported offset, the occurrence ends within the scanned prefix, and the
/// offset is counted in symbols.
pub proof fn lemma_scan_matches_sound(a: AhoCorasick, t: Seq<char>, upto: int, m: int)
    requires
        a.wf(),
        a.built(),
        upto <= t.len(),
        0 <= m < a.scan_matches(t, upto).len(),
    ensures
        a.kws().contains(a.scan_matches(t, upto)[m].1),
        0 <= a.scan_matches(t, upto)[m].0,
        a.scan_matches(t, upto)[m].0 + a.scan_matches(t, upto)[m].1.len() <= upto,
        a.scan_matches(t, upto)[m].1 == t.subrange(
            a.scan_matches(t, upto)[m].0,
            a.scan_matches(t, upto)[m].0 + a.scan_matches(t, upto)[m].1.len(),
        ),
    decreases upto,
{
    let tv = a.trie_view();
    let prev = a.scan_matches(t, upto - 1);
    if m < prev.len() {
        lemma_scan_matches_sound(a, t, upto - 1, m);
        assert(a.scan_matches(t, upto)[m] == prev[m]);
    } else {
        let e = a.emissions(t, upto - 1);
        assert(a.scan_matches(t, upto)[m] == e[m - prev.len()]);
        let s = a.state_at(t, upto);
        a.lemma_state_at_in_range(t, upto);
        a.lemma_state_at_suffix(t, upto);
        let k = a.outs_view()[s][m - prev.len()];
        assert(e[m - prev.len()] == (upto - a.kws()[k as int].len(), a.kws()[k as int]));
        let kw = a.kws()[k as int];
        assert(k < a.kws().len());
        assert(a.kws().contains(kw));
        assert(kw.is_suffix_of(tv.paths[s]));
        lemma_suffix_trans(kw, tv.paths[s], t.take(upto));
        assert(kw =~= t.take(upto).subrange(upto - kw.len(), upto));
        assert(kw =~= t.subrange(upto - kw.len(), upto)) by {
            assert forall|x: int| 0 <= x < kw.len() implies #[trigger] kw[x] == t.subrange(
                upto - kw.len(),
                upto,
            )[x] by {
                assert(kw[x] == t.take(upto)[upto - kw.len() + x]);
            }
        }
    }
}

/// The scan's full characterization: it reports `(j, kw)` exactly when `kw`
/// is a registered keyword whose symbols stand in the text at offset `j`,
/// with the occurrence ending within the scanned prefix — all occurrences,
/// overlapping ones included, and nothing else.
pub proof fn lemma_scan_matches_iff(a: AhoCorasick, t: Seq<char>, upto: int, j: int, kw: Seq<char>)
    requires
        a.wf(),
        a.built(),
        0 <= upto <= t.len(),
    ensures
        a.scan_matches(t, upto).contains((j, kw)) <==> (a.kws().contains(kw) && 0 <= j && j
            + kw.len() <= upto && kw == t.subrange(j, j + kw.len() as int)),
{
    if a.scan_matches(t, upto).contains((j, kw)) {
        let m = choose|m: int|
            0 <= m < a.scan_matches(t, upto).len() && a.scan_matches(t, upto)[m] == (j, kw);
        lemma_scan_matches_sound(a, t, upto, m);
    }
    if a.kws().contains(kw) && 0 <= j && j + kw.len() <= upto && kw == t.subrange(
        j,
        j + kw.len() as int,
    ) {
        let k = choose|k: int| 0 <= k < a.kws().len() && a.kws()[k] == kw;
        lemma_scan_matches_complete(a, t, upto, k, j);
    }
}

/// Matches are reported in the order their occurrences end: a match listed
/// earlier never ends later.  Only the relative order of matches ending at
/// the same position is fixed by nothing but the scan's output-set order.
pub proof fn lemma_scan_matches_ordered(a: AhoCorasick, t: Seq<char>, upto: int, m1: int, m2: int)
    requires
        a.wf(),
        a.built(),
        upto <= t.len(),
        0 <= m1 <= m2 < a.scan_matches(t, upto).len(),
    ensures
        a.scan_matches(t, upto)[m1].0 + a.scan_matches(t, upto)[m1].1.len() <= a.scan_matches(
            t,
            upto,
        )[m2].0 + a.scan_matches(t, upto)[m2].1.len(),
    decreases upto,
{
    let prev = a.scan_matches(t, upto - 1);
    if m2 < prev.len() {
        lemma_scan_matches_ordered(a, t, upto - 1, m1, m2);
        assert(a.scan_matches(t, upto)[m1] == prev[m1]);
        assert(a.scan_matches(t, upto)[m2] == prev[m2]);
    } else {
        let e = a.emissions(t, upto - 1);
        let s = a.state_at(t, upto);
        assert(a.scan_matches(t, upto)[m2] == e[m2 - prev.len()]);
        let k2 = a.outs_view()[s][m2 - prev.len()];
        assert(e[m2 - prev.len()] == (upto - a.kws()[k2 as int].len(), a.kws()[k2 as int]));
        if m1 < prev.len() {
            lemma_scan_matches_sound(a, t, upto - 1, m1);
            assert(a.scan_matches(t, upto)[m1] == prev[m1]);
        } else {
            let k1 = a.outs_view()[s][m1 - prev.len()];
            assert(a.scan_matches(t, upto)[m1] == e[m1 - prev.len()]);
            assert(e[m1 - prev.len()] == (upto - a.kws()[k1 as int].len(), a.kws()[k1 as int]));
        }
    }
}

/// An empty text yields no matches.
pub proof fn lemma_empty_text_no_matches(a: AhoCorasick, t: Seq<char>)
    requires
        t.len() == 0,
    ensures
        a.scan_matches(t, t.len() as int) == Seq::<(int, Seq<char>)>::empty(),
{
}

/// With no registered keyword, any text yields no matches.
pub proof fn lemma_no_keywords_no_matches(a: AhoCorasick, t: Seq<char>, upto: int)
    requires
        a.wf(),
        a.built(),
        a.kws().len() == 0,
    ensures
        a.scan_matches(t, upto) == Seq::<(int, Seq<char>)>::empty(),
    decreases upto,
{
    if upto > 0 {
        lemma_no_keywords_no_matches(a, t, upto - 1);
        a.lemma_state_at_in_range(t, upto);
        let s = a.state_at(t, upto);
        assert(a.outs_view()[s].len() == 0) by {
            if a.outs_view()[s].len() > 0 {
                assert(a.outs_view()[s][0] < a.trie_view().kws.len());
            }
        }
        assert(a.emissions(t, upto - 1) =~= Seq::<(int, Seq<char>)>::empty());
        assert(a.scan_matches(t, upto) =~= Seq::<(int, Seq<char>)>::empty());
    }
}

} // verus!
