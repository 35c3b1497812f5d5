//! A prefix trie of words, used for item-name autocompletion.
//!
//! The nodes live in one vector (the root at index 0); each node maps the code
//! of a character to the index of the child reached by it, and every child is
//! stored after its parent, so the structure is a tree.
use vstd::prelude::*;
use crate::text::{chars_of, string_from_chars};

verus! {

/// The children of a trie node: pairs of a character code and the index of
/// the child reached by it, in the order the children were added; no code
/// occurs twice.
#[derive(Debug)]
pub struct ChildList {
    entries: Vec<(u32, usize)>,
}

/// Some entry carries the code `k`.
spec fn has_code(e: Seq<(u32, usize)>, k: u32) -> bool {
    exists|i: int| 0 <= i < e.len() && #[trigger] e[i].0 == k
}

/// The position of an entry carrying the code `k`.
spec fn code_index(e: Seq<(u32, usize)>, k: u32) -> int {
    choose|i: int| 0 <= i < e.len() && #[trigger] e[i].0 == k
}

/// No code occurs twice.
spec fn codes_distinct(e: Seq<(u32, usize)>) -> bool {
    forall|i: int, j: int|
        0 <= i < e.len() && 0 <= j < e.len() && i != j ==> #[trigger] e[i].0 != #[trigger] e[j].0
}

impl View for ChildList {
    type V = Map<u32, usize>;

    /// The child reached by each code.
    closed spec fn view(&self) -> Map<u32, usize> {
        Map::new(|k: u32| has_code(self.entries@, k), |k: u32| self.entries@[code_index(self.entries@, k)].1)
    }
}

impl ChildList {
    #[verifier::type_invariant]
    closed spec fn well_formed(self) -> bool {
        codes_distinct(self.entries@)
    }

    /// The children's indices, in the order they were added.
    pub closed spec fn order(self) -> Seq<usize> {
        self.entries@.map_values(|e: (u32, usize)| e.1)
    }

    /// No children.
    pub fn new() -> (c: Self)
        ensures
            c@ == Map::<u32, usize>::empty(),
            c.order() == Seq::<usize>::empty(),
    {
        let c = ChildList { entries: Vec::new() };
        assert(c@ =~= Map::<u32, usize>::empty());
        assert(c.order() =~= Seq::<usize>::empty());
        c
    }

    /// The child reached by `code`, if there is one.
    pub fn get(&self, code: &u32) -> (r: Option<&usize>)
        ensures
            match r {
                Some(v) => self@.contains_key(*code) && *v == self@[*code],
                None => !self@.contains_key(*code),
            },
    {
        proof {
            use_type_invariant(self);
        }
        let mut i: usize = 0;
        while i < self.entries.len()
            invariant
                i <= self.entries@.len(),
                codes_distinct(self.entries@),
                forall|j: int| 0 <= j < i ==> self.entries@[j].0 != *code,
            decreases self.entries@.len() - i,
        {
            if self.entries[i].0 == *code {
                proof {
                    assert(has_code(self.entries@, *code));
                    let c = code_index(self.entries@, *code);
                    assert(self.entries@[c].0 == *code);
                    assert(c == i);
                }
                return Some(&self.entries[i].1);
            }
            i = i + 1;
        }
        None
    }

    /// Adds the child `child`, reached by `code`, which reaches no child yet.
    pub fn insert(&mut self, code: u32, child: usize)
        requires
            !old(self)@.contains_key(code),
        ensures
            final(self)@ == old(self)@.insert(code, child),
            final(self).order() == old(self).order().push(child),
    {
        proof {
            use_type_invariant(&*self);
        }
        let ghost before = self.entries@;
        assert(!has_code(before, code));
        let mut entries: Vec<(u32, usize)> = Vec::new();
        std::mem::swap(&mut entries, &mut self.entries);
        entries.push((code, child));
        proof {
            let after = entries@;
            assert(after[before.len() as int] == (code, child));
            assert forall|i: int, j: int|
                0 <= i < after.len() && 0 <= j < after.len() && i != j implies #[trigger] after[i].0
                != #[trigger] after[j].0 by {
                if i < before.len() && j < before.len() {
                    assert(after[i] == before[i] && after[j] == before[j]);
                } else if i < before.len() {
                    assert(after[i] == before[i]);
                    if before[i].0 == code {
                        assert(has_code(before, code));
                    }
                } else {
                    assert(after[j] == before[j]);
                    if before[j].0 == code {
                        assert(has_code(before, code));
                    }
                }
            }
        }
        self.entries = entries;
        proof {
            let after = self.entries@;
            assert(after[before.len() as int] == (code, child));
            assert forall|i: int, j: int|
                0 <= i < after.len() && 0 <= j < after.len() && i != j implies #[trigger] after[i].0
                != #[trigger] after[j].0 by {
                if i < before.len() && j < before.len() {
                    assert(after[i] == before[i] && after[j] == before[j]);
                } else if i < before.len() {
                    assert(after[i] == before[i]);
                    if before[i].0 == code {
                        assert(has_code(before, code));
                    }
                } else {
                    assert(after[j] == before[j]);
                    if before[j].0 == code {
                        assert(has_code(before, code));
                    }
                }
            }
            assert forall|k: u32| #[trigger] has_code(after, k) == (has_code(before, k) || k == code) by {
                if has_code(before, k) {
                    let i = choose|i: int| 0 <= i < before.len() && #[trigger] before[i].0 == k;
                    assert(after[i] == before[i]);
                }
                if has_code(after, k) && k != code {
                    let i = choose|i: int| 0 <= i < after.len() && #[trigger] after[i].0 == k;
                    assert(after[i] == before[i]);
                }
                if k == code {
                    assert(after[before.len() as int].0 == k);
                }
            }
            assert forall|k: u32| #[trigger] has_code(after, k) implies after[code_index(after, k)].1
                == (if k == code { child } else { before[code_index(before, k)].1 }) by {
                let a = code_index(after, k);
                assert(after[a].0 == k);
                if k == code {
                    assert(after[before.len() as int].0 == k);
                } else {
                    assert(a < before.len());
                    assert(after[a] == before[a]);
                    assert(has_code(before, k));
                    let b = code_index(before, k);
                    assert(before[b].0 == k);
                    assert(after[b] == before[b]);
                }
            }
            assert(self@ =~= old(self)@.insert(code, child));
            assert(self.order() =~= old(self).order().push(child));
        }
    }

    /// The children's indices in order, each with the code that reaches it.
    fn listing(&self) -> (v: Vec<usize>)
        ensures
            v@ == self.order(),
            forall|i: int|
                0 <= i < v@.len() ==> self@.contains_key(#[trigger] self.entries@[i].0) && self@[self.entries@[i].0]
                    == v@[i],
            forall|k: u32| #[trigger] self@.contains_key(k) ==> exists|i: int|
                0 <= i < v@.len() && #[trigger] self.entries@[i].0 == k,
            codes_distinct(self.entries@),
    {
        proof {
            use_type_invariant(self);
        }
        let mut v: Vec<usize> = Vec::new();
        let mut i: usize = 0;
        while i < self.entries.len()
            invariant
                i <= self.entries@.len(),
                v@ == self.entries@.take(i as int).map_values(|e: (u32, usize)| e.1),
            decreases self.entries@.len() - i,
        {
            v.push(self.entries[i].1);
            assert(self.entries@.take(i + 1).map_values(|e: (u32, usize)| e.1) =~= self.entries@.take(
                i as int,
            ).map_values(|e: (u32, usize)| e.1).push(self.entries@[i as int].1));
            i = i + 1;
        }
        assert(self.entries@.take(i as int) =~= self.entries@);
        proof {
            let e = self.entries@;
            assert forall|j: int| 0 <= j < v@.len() implies self@.contains_key(#[trigger] e[j].0)
                && self@[e[j].0] == v@[j] by {
                assert(has_code(e, e[j].0));
                let c = code_index(e, e[j].0);
                assert(e[c].0 == e[j].0);
                assert(c == j);
            }
        }
        v
    }
}

/// One node of a [`Trie`].
#[derive(Debug)]
pub struct TrieNode {
    /// The child reached by each character, by the character's code.
    pub children: ChildList,
    /// A word ends at this node.
    pub is_end_of_word: bool,
    /// The character on the edge into this node (`'\0'` for the root).
    pub letter: char,
}

impl TrieNode {
    /// A node with no children that ends no word.
    spec fn is_fresh(self) -> bool {
        &&& self.children@ == Map::<u32, usize>::empty()
        &&& !self.is_end_of_word
    }

    /// A new node: no children, and no word ends at it.
    pub fn new() -> (node: Self)
        ensures
            node.children@ == Map::<u32, usize>::empty(),
            !node.is_end_of_word,
            node.letter == '\0',
    {
        TrieNode { children: ChildList::new(), is_end_of_word: false, letter: '\0' }
    }
}

/// A set of words, searchable by prefix.
#[derive(Debug)]
pub struct Trie {
    nodes: Vec<TrieNode>,
}

/// The node reached from node `i` by the character `c`, if there is one.
spec fn step(nodes: Seq<TrieNode>, i: int, c: char) -> Option<int> {
    if 0 <= i < nodes.len() && nodes[i].children@.contains_key(c as u32) {
        Some(nodes[i].children@[c as u32] as int)
    } else {
        None
    }
}

/// The node reached from node `i` by following the characters of `w`.
spec fn walk(nodes: Seq<TrieNode>, i: int, w: Seq<char>) -> Option<int>
    decreases w.len(),
{
    if w.len() == 0 {
        Some(i)
    } else {
        match walk(nodes, i, w.drop_last()) {
            Some(j) => step(nodes, j, w.last()),
            None => None,
        }
    }
}

/// Following `w` from node `i` ends at a node where a word ends.
spec fn ends_word(nodes: Seq<TrieNode>, i: int, w: Seq<char>) -> bool {
    match walk(nodes, i, w) {
        Some(j) => 0 <= j < nodes.len() && nodes[j].is_end_of_word,
        None => false,
    }
}

/// The node array forms a tree rooted at index 0 whose edges carry the
/// letters of the nodes they lead to.
spec fn wf(nodes: Seq<TrieNode>) -> bool {
    &&& nodes.len() >= 1
    &&& forall|i: int, k: u32|
        0 <= i < nodes.len() && #[trigger] nodes[i].children@.contains_key(k) ==> {
            &&& i < nodes[i].children@[k] < nodes.len()
            &&& nodes[nodes[i].children@[k] as int].letter as u32 == k
        }
    &&& forall|i1: int, k1: u32, i2: int, k2: u32|
        0 <= i1 < nodes.len() && 0 <= i2 < nodes.len()
            && #[trigger] nodes[i1].children@.contains_key(k1)
            && #[trigger] nodes[i2].children@.contains_key(k2)
            && nodes[i1].children@[k1] == nodes[i2].children@[k2] ==> i1 == i2
}

/// `p` is a prefix of `w`.
pub open spec fn starts_with(w: Seq<char>, p: Seq<char>) -> bool {
    p.len() <= w.len() && w.take(p.len() as int) == p
}

/// The texts of a sequence of strings.
pub open spec fn string_views(strings: Seq<String>) -> Seq<Seq<char>> {
    strings.map_values(|s: String| s@)
}

/// `found` is an acceptable answer to a search of `words` for `prefix` with
/// limit `max`: at most `max` distinct words of `words`, each starting with
/// `prefix`, and all such words unless `max` of them were found.
pub open spec fn search_result(
    words: Set<Seq<char>>,
    prefix: Seq<char>,
    max: int,
    found: Seq<Seq<char>>,
) -> bool {
    &&& found.len() <= max
    &&& found.no_duplicates()
    &&& forall|i: int|
        0 <= i < found.len() ==> words.contains(#[trigger] found[i]) && starts_with(found[i], prefix)
    &&& found.len() == max || forall|w: Seq<char>|
        #[trigger] words.contains(w) && starts_with(w, prefix) ==> found.contains(w)
}

/// In `found`, every word of `words` that starts with `prefix` and is a
/// proper prefix of a found word was found before it: a word comes before its
/// extensions.
pub open spec fn prefixes_first(words: Set<Seq<char>>, prefix: Seq<char>, found: Seq<Seq<char>>) -> bool {
    forall|i: int, u: Seq<char>|
        0 <= i < found.len() && #[trigger] words.contains(u) && starts_with(u, prefix) && starts_with(
            #[trigger] found[i],
            u,
        ) && u.len() < found[i].len() ==> exists|j: int| 0 <= j < i && found[j] == u
}

impl Trie {
    /// What a search for `prefix` with limit `max` returns, in order: a
    /// depth-first walk below the node of `prefix`, a word before the words
    /// below it, children in the order they were added, stopping at `max`
    /// words; nothing when no word starts with `prefix` along the tree.
    pub closed spec fn search(&self, prefix: Seq<char>, max: int) -> Seq<Seq<char>> {
        match walk(self.nodes@, 0, prefix) {
            Some(cur) => dfs(self.nodes@, cur, prefix, max, Seq::empty()),
            None => Seq::empty(),
        }
    }
}

impl View for Trie {
    type V = Set<Seq<char>>;

    /// The set of words in the trie.
    closed spec fn view(&self) -> Set<Seq<char>> {
        words_of(self.nodes@)
    }
}

/// The words that end at a node of the array, followed from the root.
spec fn words_of(nodes: Seq<TrieNode>) -> Set<Seq<char>> {
    Set::new(|w: Seq<char>| ends_word(nodes, 0, w))
}

impl Trie {
    /// The internal tree shape holds.
    #[verifier::type_invariant]
    pub closed spec fn well_formed(&self) -> bool {
        wf(self.nodes@)
    }
}

proof fn lemma_walk_bounds(nodes: Seq<TrieNode>, i: int, w: Seq<char>)
    requires
        wf(nodes),
        0 <= i < nodes.len(),
    ensures
        walk(nodes, i, w) matches Some(j) ==> i <= j < nodes.len(),
    decreases w.len(),
{
    if w.len() > 0 {
        lemma_walk_bounds(nodes, i, w.drop_last());
        if let Some(p) = walk(nodes, i, w.drop_last()) {
            if nodes[p].children@.contains_key(w.last() as u32) {
                assert(p < nodes[p].children@[w.last() as u32]);
            }
        }
    }
}

proof fn lemma_walk_concat(nodes: Seq<TrieNode>, i: int, a: Seq<char>, b: Seq<char>)
    ensures
        walk(nodes, i, a + b) == match walk(nodes, i, a) {
            Some(j) => walk(nodes, j, b),
            None => None,
        },
    decreases b.len(),
{
    if b.len() == 0 {
        assert(a + b =~= a);
    } else {
        lemma_walk_concat(nodes, i, a, b.drop_last());
        assert((a + b).drop_last() =~= a + b.drop_last());
        assert((a + b).last() == b.last());
    }
}

proof fn lemma_walk_first(nodes: Seq<TrieNode>, i: int, c: char, w: Seq<char>)
    ensures
        walk(nodes, i, seq![c] + w) == match step(nodes, i, c) {
            Some(j) => walk(nodes, j, w),
            None => None,
        },
{
    lemma_walk_concat(nodes, i, seq![c], w);
    assert(seq![c].drop_last() =~= Seq::<char>::empty());
    assert(walk(nodes, i, seq![c].drop_last()) == Some(i));
    assert(seq![c].last() == c);
    assert(walk(nodes, i, seq![c]) == step(nodes, i, c));
}

proof fn lemma_walk_prefix(nodes: Seq<TrieNode>, i: int, w: Seq<char>, m: int)
    requires
        walk(nodes, i, w) is Some,
        0 <= m <= w.len(),
    ensures
        walk(nodes, i, w.take(m)) is Some,
    decreases w.len(),
{
    if m == w.len() {
        assert(w.take(m) =~= w);
    } else {
        assert(w.drop_last().take(m) =~= w.take(m));
        lemma_walk_prefix(nodes, i, w.drop_last(), m);
    }
}

proof fn lemma_char_code_injective(a: char, b: char)
    requires
        a as u32 == b as u32,
    ensures
        a == b,
{
    assert(0 <= a as int <= 0x10FFFF);
    assert(0 <= b as int <= 0x10FFFF);
}

proof fn lemma_walk_injective(nodes: Seq<TrieNode>, u: Seq<char>, v: Seq<char>)
    requires
        wf(nodes),
        walk(nodes, 0, u) is Some,
        walk(nodes, 0, u) == walk(nodes, 0, v),
    ensures
        u == v,
    decreases u.len() + v.len(),
{
    if u.len() == 0 && v.len() == 0 {
        assert(u =~= v);
    } else if u.len() == 0 {
        lemma_walk_bounds(nodes, 0, v.drop_last());
        let p = walk(nodes, 0, v.drop_last())->0;
        assert(p < nodes[p].children@[v.last() as u32]);
    } else if v.len() == 0 {
        lemma_walk_bounds(nodes, 0, u.drop_last());
        let p = walk(nodes, 0, u.drop_last())->0;
        assert(p < nodes[p].children@[u.last() as u32]);
    } else {
        lemma_walk_bounds(nodes, 0, u.drop_last());
        lemma_walk_bounds(nodes, 0, v.drop_last());
        let pu = walk(nodes, 0, u.drop_last())->0;
        let pv = walk(nodes, 0, v.drop_last())->0;
        let ku = u.last() as u32;
        let kv = v.last() as u32;
        assert(nodes[pu].children@.contains_key(ku));
        assert(nodes[pv].children@.contains_key(kv));
        assert(pu == pv);
        let j = nodes[pu].children@[ku];
        assert(nodes[j as int].letter as u32 == ku);
        assert(nodes[j as int].letter as u32 == kv);
        lemma_char_code_injective(u.last(), v.last());
        lemma_walk_injective(nodes, u.drop_last(), v.drop_last());
        assert(u =~= u.drop_last().push(u.last()));
        assert(v =~= v.drop_last().push(v.last()));
    }
}

proof fn lemma_walk_same_edges(n1: Seq<TrieNode>, n2: Seq<TrieNode>, i: int, w: Seq<char>)
    requires
        n1.len() == n2.len(),
        forall|x: int| 0 <= x < n1.len() ==> #[trigger] n1[x].children@ == n2[x].children@,
    ensures
        walk(n1, i, w) == walk(n2, i, w),
    decreases w.len(),
{
    if w.len() > 0 {
        lemma_walk_same_edges(n1, n2, i, w.drop_last());
    }
}

/// `new` is `old` with one fresh leaf `old.len()` hung below `cur` by `c`.
spec fn adds_leaf(old: Seq<TrieNode>, new: Seq<TrieNode>, cur: int, c: char) -> bool {
    &&& new.len() == old.len() + 1
    &&& old.len() <= usize::MAX
    &&& 0 <= cur < old.len()
    &&& !old[cur].children@.contains_key(c as u32)
    &&& new[cur].children@ == old[cur].children@.insert(c as u32, old.len() as usize)
    &&& new[cur].is_end_of_word == old[cur].is_end_of_word
    &&& forall|x: int|
        0 <= x < old.len() && x != cur ==> #[trigger] new[x].children@ == old[x].children@
            && new[x].is_end_of_word == old[x].is_end_of_word
    &&& new[old.len() as int].is_fresh()
}

proof fn lemma_walk_add_leaf(
    old: Seq<TrieNode>,
    new: Seq<TrieNode>,
    cur: int,
    c: char,
    i: int,
    w: Seq<char>,
)
    requires
        wf(old),
        adds_leaf(old, new, cur, c),
        0 <= i < old.len(),
    ensures
        walk(old, i, w) is Some ==> walk(new, i, w) == walk(old, i, w),
        walk(old, i, w) is None ==> walk(new, i, w) is None || walk(new, i, w) == Some(
            old.len() as int,
        ),
    decreases w.len(),
{
    if w.len() > 0 {
        let w0 = w.drop_last();
        let x = w.last();
        lemma_walk_add_leaf(old, new, cur, c, i, w0);
        lemma_walk_bounds(old, i, w0);
        assert(w0.len() < w.len());
        assert(walk(old, i, w) == match walk(old, i, w0) {
            Some(j) => step(old, j, x),
            None => None,
        });
        assert(walk(new, i, w) == match walk(new, i, w0) {
            Some(j) => step(new, j, x),
            None => None,
        });
        match walk(old, i, w0) {
            Some(j) => {
                assert(walk(new, i, w0) == Some(j));
                if j != cur {
                    assert(new[j].children@ == old[j].children@);
                    assert(step(new, j, x) == step(old, j, x));
                } else if x as u32 == c as u32 {
                    assert(step(old, j, x) is None);
                    assert(step(new, j, x) == Some(old.len() as int));
                } else {
                    assert(step(new, j, x) == step(old, j, x));
                }
            },
            None => {
                if walk(new, i, w0) == Some(old.len() as int) {
                    assert(new[old.len() as int].children@ == Map::<u32, usize>::empty());
                    assert(step(new, old.len() as int, x) is None);
                }
            },
        }
    }
}

proof fn lemma_add_leaf_keeps_words(old: Seq<TrieNode>, new: Seq<TrieNode>, cur: int, c: char)
    requires
        wf(old),
        adds_leaf(old, new, cur, c),
    ensures
        forall|u: Seq<char>| #[trigger] ends_word(new, 0, u) == ends_word(old, 0, u),
{
    assert forall|u: Seq<char>| #[trigger] ends_word(new, 0, u) == ends_word(old, 0, u) by {
        lemma_walk_add_leaf(old, new, cur, c, 0, u);
        lemma_walk_bounds(old, 0, u);
        if let Some(j) = walk(old, 0, u) {
            if j != cur {
                assert(new[j].children@ == old[j].children@);
                assert(new[j].is_end_of_word == old[j].is_end_of_word);
            }
        }
    }
}

proof fn lemma_add_leaf_wf(old: Seq<TrieNode>, new: Seq<TrieNode>, cur: int, c: char)
    requires
        wf(old),
        adds_leaf(old, new, cur, c),
        new[old.len() as int].letter == c,
        forall|x: int| 0 <= x < old.len() ==> #[trigger] new[x].letter == old[x].letter,
    ensures
        wf(new),
{
    let n = old.len() as int;
    assert forall|i: int, k: u32|
        0 <= i < new.len() && #[trigger] new[i].children@.contains_key(k) implies {
            &&& i < new[i].children@[k] < new.len()
            &&& new[new[i].children@[k] as int].letter as u32 == k
        } by {
        if i == n {
            assert(new[n].children@ == Map::<u32, usize>::empty());
        } else if i == cur && k == c as u32 {
            assert(new[i].children@[k] == n);
            assert(new[n].letter as u32 == k);
        } else {
            if i != cur {
                assert(new[i].children@ == old[i].children@);
            }
            assert(old[i].children@.contains_key(k));
            let ch = old[i].children@[k] as int;
            assert(new[i].children@[k] == old[i].children@[k]);
            assert(new[ch].letter == old[ch].letter);
        }
    }
    assert forall|i1: int, k1: u32, i2: int, k2: u32|
        0 <= i1 < new.len() && 0 <= i2 < new.len()
            && #[trigger] new[i1].children@.contains_key(k1)
            && #[trigger] new[i2].children@.contains_key(k2)
            && new[i1].children@[k1] == new[i2].children@[k2] implies i1 == i2 by {
        assert(new[n].children@ == Map::<u32, usize>::empty());
        let e1 = i1 == cur && k1 == c as u32;
        let e2 = i2 == cur && k2 == c as u32;
        if i1 != n && i1 != cur {
            assert(new[i1].children@ == old[i1].children@);
        }
        if i2 != n && i2 != cur {
            assert(new[i2].children@ == old[i2].children@);
        }
        if !e1 {
            assert(old[i1].children@.contains_key(k1));
            assert(new[i1].children@[k1] == old[i1].children@[k1]);
        }
        if !e2 {
            assert(old[i2].children@.contains_key(k2));
            assert(new[i2].children@[k2] == old[i2].children@[k2]);
        }
    }
}

impl Trie {
    /// An empty trie.
    pub fn new() -> (trie: Self)
        ensures
            trie@ == Set::<Seq<char>>::empty(),
    {
        let mut nodes: Vec<TrieNode> = Vec::new();
        nodes.push(TrieNode::new());
        let trie = Trie { nodes };
        assert forall|w: Seq<char>| !ends_word(trie.nodes@, 0, w) by {
            if w.len() > 0 {
                lemma_walk_bounds(trie.nodes@, 0, w.drop_last());
                assert(trie.nodes@[0].children@ == Map::<u32, usize>::empty());
            }
        }
        assert(trie@ =~= Set::<Seq<char>>::empty());
        trie
    }

    /// Adds `word` to the set of words. A word already present leaves the
    /// trie exactly as it was.
    pub fn insert(&mut self, word: &str)
        ensures
            final(self)@ == old(self)@.insert(word@),
            old(self)@.contains(word@) ==> *final(self) == *old(self),
            old(self)@.contains(word@) ==> forall|p: Seq<char>, m: int| #[trigger] final(self).search(p, m)
                == old(self).search(p, m),
    {
        proof {
            use_type_invariant(&*self);
        }
        if self.has_word(word) {
            assert(old(self)@.insert(word@) =~= old(self)@);
            return;
        }
        let mut nodes: Vec<TrieNode> = Vec::new();
        nodes.push(TrieNode::new());
        std::mem::swap(&mut nodes, &mut self.nodes);
        Self::insert_into(&mut nodes, word);
        self.nodes = nodes;
    }

    /// Whether `word` is one of the words.
    fn has_word(&self, word: &str) -> (b: bool)
        requires
            wf(self.nodes@),
        ensures
            b == self@.contains(word@),
    {
        let ghost nodes = self.nodes@;
        let w = chars_of(word);
        let mut cur: usize = 0;
        let mut k: usize = 0;
        assert(w@.take(0) =~= Seq::<char>::empty());
        while k < w.len()
            invariant
                nodes == self.nodes@,
                wf(nodes),
                w@ == word@,
                k <= w.len(),
                cur < nodes.len(),
                walk(nodes, 0, w@.take(k as int)) == Some(cur as int),
            decreases w.len() - k,
        {
            let c = w[k];
            assert(w@.take(k + 1).drop_last() =~= w@.take(k as int));
            assert(w@.take(k + 1).last() == c);
            match self.nodes[cur].children.get(&(c as u32)) {
                Some(next) => {
                    assert(nodes[cur as int].children@.contains_key(c as u32));
                    cur = *next;
                },
                None => {
                    proof {
                        assert(walk(nodes, 0, w@.take(k + 1)) is None);
                        if walk(nodes, 0, word@) is Some {
                            lemma_walk_prefix(nodes, 0, word@, k + 1);
                        }
                    }
                    return false;
                },
            }
            k = k + 1;
        }
        assert(w@.take(k as int) =~= word@);
        self.nodes[cur].is_end_of_word
    }

    /// Adds `word` to the words of the node array `nodes`.
    fn insert_into(nodes: &mut Vec<TrieNode>, word: &str)
        requires
            wf(old(nodes)@),
        ensures
            wf(final(nodes)@),
            words_of(final(nodes)@) == words_of(old(nodes)@).insert(word@),
    {
        let w = chars_of(word);
        let ghost start = nodes@;
        let mut cur: usize = 0;
        let mut k: usize = 0;
        assert(w@.take(0) =~= Seq::<char>::empty());
        while k < w.len()
            invariant
                wf(nodes@),
                w@ == word@,
                k <= w.len(),
                cur < nodes@.len(),
                walk(nodes@, 0, w@.take(k as int)) == Some(cur as int),
                forall|u: Seq<char>| #[trigger]
                    ends_word(nodes@, 0, u) == ends_word(start, 0, u),
            decreases w.len() - k,
        {
            let c = w[k];
            let key = c as u32;
            assert(w@.take(k + 1).drop_last() =~= w@.take(k as int));
            assert(w@.take(k + 1).last() == c);
            let found: Option<usize> = match nodes[cur].children.get(&key) {
                Some(next) => Some(*next),
                None => None,
            };
            match found {
                Some(next) => {
                    assert(nodes@[cur as int].children@.contains_key(key));
                    cur = next;
                },
                None => {
                    let ghost before = nodes@;
                    let nx = nodes.len();
                    let mut leaf = TrieNode::new();
                    leaf.letter = c;
                    nodes.push(leaf);
                    nodes[cur].children.insert(key, nx);
                    proof {
                        assert(adds_leaf(before, nodes@, cur as int, c));
                        lemma_add_leaf_wf(before, nodes@, cur as int, c);
                        lemma_add_leaf_keeps_words(before, nodes@, cur as int, c);
                        lemma_walk_add_leaf(before, nodes@, cur as int, c, 0, w@.take(k as int));
                    }
                    cur = nx;
                },
            }
            k = k + 1;
        }
        assert(w@.take(k as int) =~= word@);
        let ghost before = nodes@;
        nodes[cur].is_end_of_word = true;
        proof {
            let after = nodes@;
            assert forall|x: int| 0 <= x < before.len() implies #[trigger] after[x].children@
                == before[x].children@ by {}
            assert(wf(after));
            assert(walk(before, 0, word@) == Some(cur as int));
            assert forall|u: Seq<char>| #[trigger]
                ends_word(after, 0, u) == (ends_word(start, 0, u) || u == word@) by {
                lemma_walk_same_edges(before, after, 0, u);
                assert(ends_word(before, 0, u) == ends_word(start, 0, u));
                lemma_walk_bounds(before, 0, u);
                if u == word@ {
                    assert(after[cur as int].is_end_of_word);
                } else {
                    if walk(before, 0, u) == Some(cur as int) {
                        lemma_walk_injective(before, u, word@);
                    }
                    if let Some(j) = walk(before, 0, u) {
                        assert(j != cur);
                        assert(after[j] == before[j]);
                    }
                }
            }
            assert(words_of(nodes@) =~= words_of(old(nodes)@).insert(word@));
        }
    }
}


/// The children of `node`, in the order they were added.
spec fn kids_of(nodes: Seq<TrieNode>, node: int) -> Seq<usize> {
    nodes[node].children.order()
}

/// The words a depth-first search below `node` appends to `acc`: the word
/// `cw` if it ends at `node`, then the words below each child in the order of
/// the walk, each child's letter appended to `cw`, stopping once `max` words
/// are there.
spec fn dfs(nodes: Seq<TrieNode>, node: int, cw: Seq<char>, max: int, acc: Seq<Seq<char>>) -> Seq<
    Seq<char>,
>
    decreases nodes.len() - node, 1int, 0int,
{
    if acc.len() >= max || !(0 <= node < nodes.len()) {
        acc
    } else {
        let acc1 = if nodes[node].is_end_of_word {
            acc.push(cw)
        } else {
            acc
        };
        dfs_kids(nodes, node, kids_of(nodes, node), 0, cw, max, acc1)
    }
}

/// The words a depth-first search appends to `acc` below the children
/// `kids[j..]` of `node`.
spec fn dfs_kids(
    nodes: Seq<TrieNode>,
    node: int,
    kids: Seq<usize>,
    j: int,
    cw: Seq<char>,
    max: int,
    acc: Seq<Seq<char>>,
) -> Seq<Seq<char>>
    decreases nodes.len() - node, 0int, kids.len() - j,
{
    if j < 0 || j >= kids.len() {
        acc
    } else {
        let kid = kids[j] as int;
        let next = if node < kid < nodes.len() {
            dfs(nodes, kid, cw.push(nodes[kid].letter), max, acc)
        } else {
            acc
        };
        dfs_kids(nodes, node, kids, j + 1, cw, max, next)
    }
}

proof fn lemma_views_push(rs: Seq<String>, s: String)
    ensures
        string_views(rs.push(s)) == string_views(rs).push(s@),
{
    assert(string_views(rs.push(s)) =~= string_views(rs).push(s@));
}

/// `x` is the child of `node` reached by `x`'s own letter.
spec fn is_child_of(nodes: Seq<TrieNode>, node: int, x: int) -> bool {
    &&& 0 <= x < nodes.len()
    &&& step(nodes, node, nodes[x].letter) == Some(x)
}

/// `s` is `prefix` followed by a word that ends below `node`.
spec fn found_below(nodes: Seq<TrieNode>, node: int, prefix: Seq<char>, s: Seq<char>) -> bool {
    &&& starts_with(s, prefix)
    &&& ends_word(nodes, node, s.skip(prefix.len() as int))
}

/// Among the entries of `rs` from `lo` on, each word of the form `cw + v`
/// with `v` ending below `node` that is a proper prefix of an entry comes
/// before that entry.
#[verifier::opaque]
spec fn ordered_below(nodes: Seq<TrieNode>, node: int, cw: Seq<char>, rs: Seq<String>, lo: int) -> bool {
    forall|i: int, n: int|
        lo <= i < rs.len() && cw.len() <= n < rs[i]@.len() && #[trigger] ends_word(
            nodes,
            node,
            rs[i]@.subrange(cw.len() as int, n),
        ) ==> exists|j: int| lo <= j < i && #[trigger] rs[j]@ == rs[i]@.take(n)
}

/// `after` is `before` extended, up to `max` entries in all, by distinct words
/// `prefix + u` with `u` ending below `node`; unless `max` was reached, every
/// such word was added.
spec fn collects(
    nodes: Seq<TrieNode>,
    node: int,
    prefix: Seq<char>,
    before: Seq<String>,
    after: Seq<String>,
    max: int,
) -> bool {
    &&& before.len() <= after.len()
    &&& forall|i: int| 0 <= i < before.len() ==> after[i] == before[i]
    &&& before.len() >= max ==> after.len() == before.len()
    &&& before.len() < max ==> after.len() <= max
    &&& forall|i: int|
        before.len() <= i < after.len() ==> found_below(nodes, node, prefix, #[trigger] after[i]@)
    &&& forall|i: int, j: int|
        before.len() <= i < j < after.len() ==> #[trigger] after[i]@ != #[trigger] after[j]@
    &&& after.len() == max || before.len() >= max || forall|u: Seq<char>| #[trigger]
        ends_word(nodes, node, u) ==> exists|i: int|
            before.len() <= i < after.len() && #[trigger] after[i]@ == prefix + u
    &&& ordered_below(nodes, node, prefix, after, before.len() as int)
}

proof fn lemma_child_word(nodes: Seq<TrieNode>, node: int, kid: int, v: Seq<char>)
    requires
        is_child_of(nodes, node, kid),
    ensures
        ends_word(nodes, node, seq![nodes[kid].letter] + v) == ends_word(nodes, kid, v),
{
    lemma_walk_first(nodes, node, nodes[kid].letter, v);
}

proof fn lemma_split_first(u: Seq<char>)
    requires
        u.len() > 0,
    ensures
        u == seq![u[0]] + u.drop_first(),
{
    assert(u =~= seq![u[0]] + u.drop_first());
}

impl Trie {
    /// The indices of the children of `node`, each once.
    fn child_indices(&self, node: usize) -> (kids: Vec<usize>)
        requires
            wf(self.nodes@),
            node < self.nodes@.len(),
        ensures
            children_listed(self.nodes@, node as int, kids@),
            kids@ == kids_of(self.nodes@, node as int),
    {
        let ghost nodes = self.nodes@;
        let ghost m = nodes[node as int].children@;
        let kids = self.nodes[node].children.listing();
        proof {
            let e = nodes[node as int].children.entries@;
            assert(kids@ =~= kids_of(self.nodes@, node as int));
            assert forall|i: int| 0 <= i < kids.len() implies is_child_of(
                nodes,
                node as int,
                #[trigger] kids@[i] as int,
            ) by {
                let k = e[i].0;
                assert(m.contains_key(k) && m[k] == kids@[i]);
            }
            assert forall|i: int, j: int|
                0 <= i < kids.len() && 0 <= j < kids.len() && i != j implies kids@[i]
                != kids@[j] by {
                let ki = e[i].0;
                let kj = e[j].0;
                assert(m.contains_key(ki) && m[ki] == kids@[i]);
                assert(m.contains_key(kj) && m[kj] == kids@[j]);
                assert(e[i].0 != e[j].0);
                if kids@[i] == kids@[j] {
                    assert(nodes[node as int].children@.contains_key(ki));
                    assert(nodes[node as int].children@.contains_key(kj));
                    assert(nodes[kids@[i] as int].letter as u32 == ki);
                    assert(nodes[kids@[j] as int].letter as u32 == kj);
                }
            }
            assert forall|c: char|
                #[trigger] step(nodes, node as int, c) is Some implies kids@.contains(
                    step(nodes, node as int, c)->0 as usize,
                ) by {
                let k = c as u32;
                assert(m.contains_key(k));
                let i = choose|i: int| 0 <= i < kids@.len() && #[trigger] e[i].0 == k;
                assert(kids@[i] == m[k]);
            }
        }
        kids
    }
}


/// Some visited child (`kids[0..j]`) of `node` carries the letter `c`.
spec fn visited_letter(nodes: Seq<TrieNode>, kids: Seq<usize>, j: int, c: char) -> bool {
    exists|jj: int| 0 <= jj < j && #[trigger] nodes[kids[jj] as int].letter == c
}

/// `kids` lists the children of `node`, each once.
spec fn children_listed(nodes: Seq<TrieNode>, node: int, kids: Seq<usize>) -> bool {
    &&& kids.no_duplicates()
    &&& forall|i: int| 0 <= i < kids.len() ==> is_child_of(nodes, node, #[trigger] kids[i] as int)
    &&& forall|c: char|
        #[trigger] step(nodes, node, c) is Some ==> kids.contains(step(nodes, node, c)->0 as usize)
}

/// The state of the search below `node` once the children `kids[0..j]` were visited.
#[verifier::opaque]
spec fn search_state(
    nodes: Seq<TrieNode>,
    node: int,
    kids: Seq<usize>,
    j: int,
    cw: Seq<char>,
    r0: Seq<String>,
    rs: Seq<String>,
    max: int,
) -> bool {
    &&& r0.len() <= rs.len() <= max
    &&& forall|i: int| 0 <= i < r0.len() ==> rs[i] == r0[i]
    &&& forall|i: int| r0.len() <= i < rs.len() ==> found_below(nodes, node, cw, #[trigger] rs[i]@)
    &&& forall|i: int|
        r0.len() <= i < rs.len() ==> (#[trigger] rs[i]@).len() == cw.len() || visited_letter(
            nodes,
            kids,
            j,
            rs[i]@[cw.len() as int],
        )
    &&& forall|i: int, k: int| r0.len() <= i < k < rs.len() ==> #[trigger] rs[i]@ != #[trigger] rs[k]@
    &&& rs.len() == max || forall|u: Seq<char>| #[trigger]
        ends_word(nodes, node, u) && (u.len() == 0 || visited_letter(nodes, kids, j, u[0]))
            ==> exists|i: int| r0.len() <= i < rs.len() && #[trigger] rs[i]@ == cw + u
    &&& nodes[node].is_end_of_word ==> r0.len() < rs.len() && rs[r0.len() as int]@ == cw
    &&& ordered_below(nodes, node, cw, rs, r0.len() as int)
}

proof fn lemma_search_start(
    nodes: Seq<TrieNode>,
    node: int,
    kids: Seq<usize>,
    cw: Seq<char>,
    r0: Seq<String>,
    rs: Seq<String>,
    max: int,
)
    requires
        0 <= node < nodes.len(),
        r0.len() < max,
        nodes[node].is_end_of_word ==> rs.len() == r0.len() + 1 && rs.drop_last() == r0 && rs.last()@ == cw,
        !nodes[node].is_end_of_word ==> rs == r0,
    ensures
        search_state(nodes, node, kids, 0, cw, r0, rs, max),
{
    reveal(search_state);
    reveal(ordered_below);
    assert(cw.skip(cw.len() as int) =~= Seq::<char>::empty());
    assert(cw.take(cw.len() as int) =~= cw);
    assert(walk(nodes, node, Seq::<char>::empty()) == Some(node));
    if nodes[node].is_end_of_word {
        assert forall|i: int| 0 <= i < r0.len() implies rs[i] == r0[i] by {
            assert(rs.drop_last()[i] == rs[i]);
        }
        assert(rs[r0.len() as int] == rs.last());
        assert forall|u: Seq<char>| #[trigger]
            ends_word(nodes, node, u) && (u.len() == 0 || visited_letter(nodes, kids, 0, u[0]))
                implies exists|i: int| r0.len() <= i < rs.len() && #[trigger] rs[i]@ == cw + u by {
            assert(u.len() == 0);
            assert(cw + u =~= cw);
            assert(rs[r0.len() as int]@ == cw + u);
        }
    } else {
        assert forall|u: Seq<char>| #[trigger]
            ends_word(nodes, node, u) && (u.len() == 0 || visited_letter(nodes, kids, 0, u[0]))
                implies false by {
            assert(u.len() == 0);
        }
    }
}

proof fn lemma_child_entries(
    nodes: Seq<TrieNode>,
    node: int,
    kid: int,
    cw: Seq<char>,
    r1: Seq<String>,
    r2: Seq<String>,
    max: int,
)
    requires
        is_child_of(nodes, node, kid),
        collects(nodes, kid, cw.push(nodes[kid].letter), r1, r2, max),
    ensures
        forall|i: int|
            r1.len() <= i < r2.len() ==> found_below(nodes, node, cw, #[trigger] r2[i]@)
                && r2[i]@.len() > cw.len() && r2[i]@[cw.len() as int] == nodes[kid].letter,
{
    let letter = nodes[kid].letter;
    let cw2 = cw.push(letter);
    assert forall|i: int| r1.len() <= i < r2.len() implies found_below(
        nodes,
        node,
        cw,
        #[trigger] r2[i]@,
    ) && r2[i]@.len() > cw.len() && r2[i]@[cw.len() as int] == letter by {
        let s = r2[i]@;
        assert(found_below(nodes, kid, cw2, s));
        let vv = s.skip(cw2.len() as int);
        assert(s[cw.len() as int] == s.take(cw2.len() as int)[cw.len() as int]);
        assert(s[cw.len() as int] == letter);
        assert(s.skip(cw.len() as int) =~= seq![letter] + vv);
        lemma_child_word(nodes, node, kid, vv);
        assert(s.take(cw.len() as int) =~= cw2.take(cw.len() as int));
        assert(cw2.take(cw.len() as int) =~= cw);
    }
}

proof fn lemma_step_ordered(
    nodes: Seq<TrieNode>,
    node: int,
    kid: int,
    cw: Seq<char>,
    r0: Seq<String>,
    r1: Seq<String>,
    r2: Seq<String>,
    max: int,
)
    requires
        is_child_of(nodes, node, kid),
        r0.len() <= r1.len(),
        ordered_below(nodes, node, cw, r1, r0.len() as int),
        nodes[node].is_end_of_word ==> r0.len() < r1.len() && r1[r0.len() as int]@ == cw,
        collects(nodes, kid, cw.push(nodes[kid].letter), r1, r2, max),
    ensures
        ordered_below(nodes, node, cw, r2, r0.len() as int),
{
    reveal(ordered_below);
    let letter = nodes[kid].letter;
    let cw2 = cw.push(letter);
    lemma_child_entries(nodes, node, kid, cw, r1, r2, max);
    assert forall|i: int, n: int|
        r0.len() <= i < r2.len() && cw.len() <= n < r2[i]@.len() && #[trigger] ends_word(
            nodes,
            node,
            r2[i]@.subrange(cw.len() as int, n),
        ) implies exists|j: int| r0.len() <= j < i && #[trigger] r2[j]@ == r2[i]@.take(n) by {
        let s = r2[i]@;
        if i < r1.len() {
            assert(r2[i] == r1[i]);
            assert(ends_word(nodes, node, r1[i]@.subrange(cw.len() as int, n)));
            let j = choose|j: int| r0.len() <= j < i && #[trigger] r1[j]@ == r1[i]@.take(n);
            assert(r2[j] == r1[j]);
        } else if n == cw.len() {
            assert(s.subrange(cw.len() as int, n) =~= Seq::<char>::empty());
            assert(walk(nodes, node, Seq::<char>::empty()) == Some(node));
            assert(nodes[node].is_end_of_word);
            let j = r0.len() as int;
            assert(r2[j] == r1[j]);
            assert(found_below(nodes, node, cw, s));
            assert(s.take(n) == cw);
            assert(r2[j]@ == s.take(n));
        } else {
            let v = s.subrange(cw2.len() as int, n);
            assert(s[cw.len() as int] == letter);
            assert(s.subrange(cw.len() as int, n) =~= seq![letter] + v);
            lemma_child_word(nodes, node, kid, v);
            assert(ends_word(nodes, kid, r2[i]@.subrange(cw2.len() as int, n)));
            let j = choose|j: int| r1.len() <= j < i && #[trigger] r2[j]@ == r2[i]@.take(n);
            assert(r0.len() <= j);
        }
    }
}

#[verifier::rlimit(50)]
proof fn lemma_search_step(
    nodes: Seq<TrieNode>,
    node: int,
    kids: Seq<usize>,
    j: int,
    cw: Seq<char>,
    r0: Seq<String>,
    r1: Seq<String>,
    r2: Seq<String>,
    max: int,
)
    requires
        wf(nodes),
        0 <= node < nodes.len(),
        children_listed(nodes, node, kids),
        0 <= j < kids.len(),
        r0.len() < max,
        search_state(nodes, node, kids, j, cw, r0, r1, max),
        collects(nodes, kids[j] as int, cw.push(nodes[kids[j] as int].letter), r1, r2, max),
    ensures
        search_state(nodes, node, kids, j + 1, cw, r0, r2, max),
{
    reveal(search_state);
    let kid = kids[j] as int;
    let letter = nodes[kid].letter;
    let cw2 = cw.push(letter);
    assert(is_child_of(nodes, node, kid));
    lemma_step_ordered(nodes, node, kid, cw, r0, r1, r2, max);
    if nodes[node].is_end_of_word {
        assert(r2[r0.len() as int] == r1[r0.len() as int]);
    }
    lemma_child_entries(nodes, node, kid, cw, r1, r2, max);
    assert forall|i: int|
        r0.len() <= i < r2.len() implies (#[trigger] r2[i]@).len() == cw.len() || visited_letter(
            nodes,
            kids,
            j + 1,
            r2[i]@[cw.len() as int],
        ) by {
        if i < r1.len() {
            assert(r2[i] == r1[i]);
            if r2[i]@.len() != cw.len() {
                let c = r2[i]@[cw.len() as int];
                assert(visited_letter(nodes, kids, j, c));
                let jj = choose|jj: int| 0 <= jj < j && #[trigger] nodes[kids[jj] as int].letter == c;
                assert(nodes[kids[jj] as int].letter == c);
            }
        } else {
            assert(nodes[kids[j] as int].letter == letter);
        }
    }
    assert forall|i: int, k: int| r0.len() <= i < k < r2.len() implies #[trigger] r2[i]@
        != #[trigger] r2[k]@ by {
        if i < r1.len() && k >= r1.len() {
            assert(r2[i] == r1[i]);
            if r2[i]@ == r2[k]@ {
                let c = r2[i]@[cw.len() as int];
                assert(r1[i]@.len() != cw.len());
                assert(visited_letter(nodes, kids, j, c));
                let jj = choose|jj: int| 0 <= jj < j && #[trigger] nodes[kids[jj] as int].letter == c;
                let a = kids[jj] as int;
                assert(is_child_of(nodes, node, a));
                assert(kids[jj] != kids[j]);
                assert(false);
            }
        } else if k < r1.len() {
            assert(r2[i] == r1[i]);
            assert(r2[k] == r1[k]);
        }
    }
    if r2.len() != max {
        assert forall|u: Seq<char>| #[trigger]
            ends_word(nodes, node, u) && (u.len() == 0 || visited_letter(nodes, kids, j + 1, u[0]))
                implies exists|i: int| r0.len() <= i < r2.len() && #[trigger] r2[i]@ == cw + u by {
            if u.len() == 0 || visited_letter(nodes, kids, j, u[0]) {
                assert(r1.len() != max);
                let i = choose|i: int| r0.len() <= i < r1.len() && #[trigger] r1[i]@ == cw + u;
                assert(r2[i] == r1[i]);
            } else {
                let jj = choose|jj: int| 0 <= jj < j + 1 && #[trigger] nodes[kids[jj] as int].letter == u[0];
                assert(jj == j);
                lemma_split_first(u);
                let vv = u.drop_first();
                lemma_child_word(nodes, node, kid, vv);
                assert(ends_word(nodes, kid, vv));
                assert(r1.len() < max);
                let i = choose|i: int| r1.len() <= i < r2.len() && #[trigger] r2[i]@ == cw2 + vv;
                assert(cw2 + vv =~= cw + u);
            }
        }
    }
}

proof fn lemma_search_done(
    nodes: Seq<TrieNode>,
    node: int,
    kids: Seq<usize>,
    cw: Seq<char>,
    r0: Seq<String>,
    rs: Seq<String>,
    max: int,
)
    requires
        wf(nodes),
        0 <= node < nodes.len(),
        children_listed(nodes, node, kids),
        r0.len() < max,
        search_state(nodes, node, kids, kids.len() as int, cw, r0, rs, max),
    ensures
        collects(nodes, node, cw, r0, rs, max),
{
    reveal(search_state);
    if rs.len() != max {
        assert forall|u: Seq<char>| #[trigger] ends_word(nodes, node, u) implies exists|i: int|
            r0.len() <= i < rs.len() && #[trigger] rs[i]@ == cw + u by {
            if u.len() > 0 {
                lemma_split_first(u);
                lemma_walk_first(nodes, node, u[0], u.drop_first());
                assert(step(nodes, node, u[0]) is Some);
                let x = step(nodes, node, u[0])->0;
                assert(kids.contains(x as usize));
                let jj = choose|jj: int| 0 <= jj < kids.len() && kids[jj] == x as usize;
                assert(is_child_of(nodes, node, kids[jj] as int));
                lemma_walk_bounds(nodes, node, seq![u[0]]);
                assert(nodes[x].letter as u32 == u[0] as u32);
                lemma_char_code_injective(nodes[x].letter, u[0]);
                assert(visited_letter(nodes, kids, kids.len() as int, u[0]));
            }
        }
    }
}

proof fn lemma_no_word_below(nodes: Seq<TrieNode>, prefix: Seq<char>, k: int)
    requires
        0 <= k <= prefix.len(),
        walk(nodes, 0, prefix.take(k)) is None,
    ensures
        forall|w: Seq<char>| starts_with(w, prefix) ==> !#[trigger] ends_word(nodes, 0, w),
{
    assert forall|w: Seq<char>| starts_with(w, prefix) implies !#[trigger] ends_word(nodes, 0, w) by {
        if walk(nodes, 0, w) is Some {
            lemma_walk_prefix(nodes, 0, w, k);
            assert(w.take(k) =~= prefix.take(k));
        }
    }
}

#[verifier::rlimit(50)]
proof fn lemma_search_result(
    nodes: Seq<TrieNode>,
    cur: int,
    prefix: Seq<char>,
    rs: Seq<String>,
    max: int,
)
    requires
        walk(nodes, 0, prefix) == Some(cur),
        collects(nodes, cur, prefix, Seq::<String>::empty(), rs, max),
        max >= 0,
    ensures
        search_result(
            Set::new(|w: Seq<char>| ends_word(nodes, 0, w)),
            prefix,
            max,
            string_views(rs),
        ),
        prefixes_first(Set::new(|w: Seq<char>| ends_word(nodes, 0, w)), prefix, string_views(rs)),
{
    let words = Set::new(|w: Seq<char>| ends_word(nodes, 0, w));
    let found = string_views(rs);
    assert forall|i: int, k: int| 0 <= i < found.len() && 0 <= k < found.len() && i != k implies found[i] != found[k] by {
        if i < k {
            assert(rs[i]@ != rs[k]@);
        } else {
            assert(rs[k]@ != rs[i]@);
        }
    }
    assert forall|i: int| 0 <= i < rs.len() implies ends_word(nodes, 0, #[trigger] rs[i]@)
        && starts_with(rs[i]@, prefix) by {
        let s = rs[i]@;
        assert(found_below(nodes, cur, prefix, s));
        let u = s.skip(prefix.len() as int);
        assert(s.take(prefix.len() as int) == prefix);
        assert(s =~= s.take(prefix.len() as int) + u);
        assert(s == prefix + u);
        lemma_walk_concat(nodes, 0, prefix, u);
    }
    assert forall|i: int| 0 <= i < found.len() implies words.contains(#[trigger] found[i])
        && starts_with(found[i], prefix) by {
        assert(found[i] == rs[i]@);
    }
    assert forall|i: int, u: Seq<char>|
        0 <= i < found.len() && #[trigger] words.contains(u) && starts_with(u, prefix) && starts_with(
            #[trigger] found[i],
            u,
        ) && u.len() < found[i].len() implies exists|j: int| 0 <= j < i && found[j] == u by {
        reveal(ordered_below);
        let s = rs[i]@;
        assert(found[i] == s);
        let n = u.len() as int;
        let t = u.skip(prefix.len() as int);
        assert(u.take(prefix.len() as int) == prefix);
        assert(u =~= prefix + t);
        lemma_walk_concat(nodes, 0, prefix, t);
        assert(ends_word(nodes, cur, t));
        assert(s.take(n) == u);
        assert(s.subrange(prefix.len() as int, n) =~= t);
        assert(ends_word(nodes, cur, rs[i]@.subrange(prefix.len() as int, n)));
        let j = choose|j: int| 0 <= j < i && #[trigger] rs[j]@ == rs[i]@.take(n);
        assert(found[j] == u);
    }
    if rs.len() != max {
        assert forall|w: Seq<char>|
            #[trigger] words.contains(w) && starts_with(w, prefix) implies found.contains(w) by {
            let u = w.skip(prefix.len() as int);
            assert(w.take(prefix.len() as int) == prefix);
            assert(w =~= w.take(prefix.len() as int) + u);
            assert(w == prefix + u);
            lemma_walk_concat(nodes, 0, prefix, u);
            assert(ends_word(nodes, cur, u));
            let i = choose|i: int| 0 <= i < rs.len() && #[trigger] rs[i]@ == prefix + u;
            assert(found[i] == w);
        }
    }
}

impl Trie {
    /// Depth-first search below `node`, appending to `results` the words
    /// `current_word + u` for the words `u` ending below `node`, until
    /// `results` holds `max` entries.
    fn collect_words(
        &self,
        node: usize,
        results: &mut Vec<String>,
        current_word: &mut Vec<char>,
        max: usize,
    )
        requires
            wf(self.nodes@),
            node < self.nodes@.len(),
        ensures
            final(current_word)@ == old(current_word)@,
            collects(self.nodes@, node as int, old(current_word)@, old(results)@, final(results)@, max as int),
            string_views(final(results)@) == dfs(
                self.nodes@,
                node as int,
                old(current_word)@,
                max as int,
                string_views(old(results)@),
            ),
        decreases self.nodes@.len() - node,
    {
        let ghost nodes = self.nodes@;
        let ghost cw = current_word@;
        let ghost r0 = results@;
        if results.len() >= max {
            proof {
                reveal(ordered_below);
            }
            return;
        }
        if self.nodes[node].is_end_of_word {
            let word = string_from_chars(current_word);
            proof {
                lemma_views_push(results@, word);
            }
            results.push(word);
            assert(results@.drop_last() =~= r0);
        }
        let kids = self.child_indices(node);
        let ghost target = dfs_kids(nodes, node as int, kids@, 0, cw, max as int, string_views(results@));
        assert(target == dfs(nodes, node as int, cw, max as int, string_views(r0)));
        proof {
            lemma_search_start(nodes, node as int, kids@, cw, r0, results@, max as int);
        }
        let mut j: usize = 0;
        while j < kids.len()
            invariant
                nodes == self.nodes@,
                wf(nodes),
                node < nodes.len(),
                current_word@ == cw,
                r0.len() < max,
                children_listed(nodes, node as int, kids@),
                j <= kids.len(),
                search_state(nodes, node as int, kids@, j as int, cw, r0, results@, max as int),
                dfs_kids(nodes, node as int, kids@, j as int, cw, max as int, string_views(results@))
                    == target,
            decreases kids.len() - j,
        {
            let kid = kids[j];
            let ghost r1 = results@;
            assert(is_child_of(nodes, node as int, kid as int));
            assert(node < kid < nodes.len());
            current_word.push(self.nodes[kid].letter);
            self.collect_words(kid, results, current_word, max);
            current_word.pop();
            proof {
                assert(current_word@ =~= cw);
                lemma_search_step(nodes, node as int, kids@, j as int, cw, r0, r1, results@, max as int);
            }
            j = j + 1;
        }
        proof {
            lemma_search_done(nodes, node as int, kids@, cw, r0, results@, max as int);
        }
    }

    /// Up to `max` distinct words of the trie that start with `prefix`; all of
    /// them when there are no more than `max`.
    pub fn find_starting_with(&self, prefix: &str, max: usize) -> (results: Vec<String>)
        ensures
            search_result(self@, prefix@, max as int, string_views(results@)),
            prefixes_first(self@, prefix@, string_views(results@)),
            string_views(results@) == self.search(prefix@, max as int),
    {
        proof {
            use_type_invariant(self);
        }
        let ghost nodes = self.nodes@;
        let p = chars_of(prefix);
        let mut results: Vec<String> = Vec::new();
        let mut current_word: Vec<char> = Vec::new();
        let mut cur: usize = 0;
        let mut k: usize = 0;
        assert(p@.take(0) =~= Seq::<char>::empty());
        while k < p.len()
            invariant
                nodes == self.nodes@,
                wf(nodes),
                p@ == prefix@,
                k <= p.len(),
                cur < nodes.len(),
                current_word@ == p@.take(k as int),
                results@.len() == 0,
                walk(nodes, 0, p@.take(k as int)) == Some(cur as int),
            decreases p.len() - k,
        {
            let c = p[k];
            assert(p@.take(k + 1).drop_last() =~= p@.take(k as int));
            assert(p@.take(k + 1).last() == c);
            let found: Option<usize> = match self.nodes[cur].children.get(&(c as u32)) {
                Some(next) => Some(*next),
                None => None,
            };
            match found {
                Some(next) => {
                    assert(nodes[cur as int].children@.contains_key(c as u32));
                    cur = next;
                    current_word.push(c);
                    assert(current_word@ =~= p@.take(k + 1));
                },
                None => {
                    proof {
                        assert(walk(nodes, 0, p@.take(k + 1)) is None);
                        lemma_no_word_below(nodes, prefix@, k as int + 1);
                        assert(string_views(results@) =~= Seq::<Seq<char>>::empty());
                        if walk(nodes, 0, prefix@) is Some {
                            lemma_walk_prefix(nodes, 0, prefix@, k + 1);
                        }
                    }
                    return results;
                },
            }
            assert(walk(nodes, 0, p@.take(k + 1)) == Some(cur as int));
            k = k + 1;
        }
        assert(p@.take(k as int) =~= prefix@);
        let ghost empty = results@;
        assert(string_views(empty) =~= Seq::<Seq<char>>::empty());
        self.collect_words(cur, &mut results, &mut current_word, max);
        proof {
            lemma_search_result(nodes, cur as int, prefix@, results@, max as int);
        }
        results
    }
}


/// The words that start with `prefix`.
pub open spec fn with_prefix(words: Set<Seq<char>>, prefix: Seq<char>) -> Set<Seq<char>> {
    words.filter(|w: Seq<char>| starts_with(w, prefix))
}

/// The smaller of two integers.
pub open spec fn min_of(a: int, b: int) -> int {
    if a <= b {
        a
    } else {
        b
    }
}

impl Trie {
    /// A trie holds finitely many words.
    pub proof fn lemma_words_finite(&self)
        requires
            self.well_formed(),
        ensures
            self@.finite(),
    {
        let nodes = self.nodes@;
        let f = |j: int| choose|w: Seq<char>| walk(nodes, 0, w) == Some(j);
        let reached = vstd::set_lib::set_int_range(0, nodes.len() as int).map(f);
        vstd::set_lib::lemma_int_range(0, nodes.len() as int);
        vstd::set_lib::set_int_range(0, nodes.len() as int).lemma_map_finite(f);
        assert forall|w: Seq<char>| self@.contains(w) implies reached.contains(w) by {
            lemma_walk_bounds(nodes, 0, w);
            let j = walk(nodes, 0, w)->0;
            let w2 = f(j);
            assert(walk(nodes, 0, w2) == Some(j));
            lemma_walk_injective(nodes, w2, w);
            assert(vstd::set_lib::set_int_range(0, nodes.len() as int).contains(j));
        }
        vstd::set_lib::lemma_set_subset_finite(reached, self@);
    }
}

/// A word, once inserted, is found by a search for any of its prefixes,
/// unless the search stopped at its limit.
pub proof fn law_search_finds_inserted(
    words: Set<Seq<char>>,
    word: Seq<char>,
    prefix: Seq<char>,
    max: int,
    found: Seq<Seq<char>>,
)
    requires
        search_result(words.insert(word), prefix, max, found),
        starts_with(word, prefix),
        found.len() < max,
    ensures
        found.contains(word),
{
    assert(words.insert(word).contains(word));
}

/// A search of a trie that holds no word finds nothing.
pub proof fn law_search_of_empty(prefix: Seq<char>, max: int, found: Seq<Seq<char>>)
    requires
        search_result(Set::empty(), prefix, max, found),
    ensures
        found.len() == 0,
{
    if found.len() > 0 {
        assert(Set::<Seq<char>>::empty().contains(found[0]));
    }
}

/// When the prefix is itself a word and the limit allows one word, the
/// search finds the prefix first; more generally a word comes before its
/// extensions.
pub proof fn law_search_prefix_first(words: Set<Seq<char>>, prefix: Seq<char>, max: int, found: Seq<Seq<char>>)
    requires
        words.finite(),
        search_result(words, prefix, max, found),
        prefixes_first(words, prefix, found),
        words.contains(prefix),
        max >= 1,
    ensures
        found.len() >= 1,
        found[0] == prefix,
{
    law_search_count(words, prefix, max, found);
    let m = with_prefix(words, prefix);
    words.lemma_len_filter(|w: Seq<char>| starts_with(w, prefix));
    assert(prefix.take(prefix.len() as int) =~= prefix);
    assert(m.contains(prefix));
    if m.len() == 0 {
        assert(m =~= Set::<Seq<char>>::empty());
        assert(false);
    }
    assert(starts_with(found[0], prefix));
    if found[0] != prefix {
        assert(found[0].take(prefix.len() as int) == prefix);
        if found[0].len() == prefix.len() {
            assert(found[0] =~= found[0].take(prefix.len() as int));
        }
        assert(starts_with(found[0], prefix) && prefix.len() < found[0].len());
        assert(words.contains(prefix) && starts_with(prefix, prefix));
    }
}

/// A word starts with `p` exactly when it is `p` followed by more text.
pub proof fn law_starts_with(w: Seq<char>, p: Seq<char>, x: Seq<char>)
    ensures
        starts_with(p + x, p),
        starts_with(w, p) ==> w == p + w.skip(p.len() as int),
        p.len() > w.len() ==> !starts_with(w, p),
{
    assert((p + x).take(p.len() as int) =~= p);
    if starts_with(w, p) {
        assert(w =~= w.take(p.len() as int) + w.skip(p.len() as int));
    }
}

/// A search for a prefix that no word has finds nothing.
pub proof fn law_search_without_match(words: Set<Seq<char>>, prefix: Seq<char>, max: int, found: Seq<Seq<char>>)
    requires
        search_result(words, prefix, max, found),
        forall|w: Seq<char>| words.contains(w) ==> !starts_with(w, prefix),
    ensures
        found.len() == 0,
{
    if found.len() > 0 {
        assert(words.contains(found[0]) && starts_with(found[0], prefix));
    }
}

/// A search returns as many words as it may, or all the words that start
/// with the prefix if there are fewer.
pub proof fn law_search_count(words: Set<Seq<char>>, prefix: Seq<char>, max: int, found: Seq<Seq<char>>)
    requires
        words.finite(),
        search_result(words, prefix, max, found),
    ensures
        found.len() == min_of(max, with_prefix(words, prefix).len() as int),
{
    let m = with_prefix(words, prefix);
    words.lemma_len_filter(|w: Seq<char>| starts_with(w, prefix));
    let fs = found.to_set();
    assert(fs.subset_of(m)) by {
        assert forall|w: Seq<char>| fs.contains(w) implies m.contains(w) by {
            let i = choose|i: int| 0 <= i < found.len() && found[i] == w;
            assert(words.contains(found[i]));
        }
    }
    found.unique_seq_to_set();
    vstd::set_lib::lemma_len_subset(fs, m);
    if found.len() != max {
        assert(fs =~= m) by {
            assert forall|w: Seq<char>| m.contains(w) implies fs.contains(w) by {
                assert(words.contains(w) && starts_with(w, prefix));
                assert(found.contains(w));
            }
        }
    }
}

} // verus!
