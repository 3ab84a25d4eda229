//! Segmentation of a word into element symbols. `analyze` grows a binary
//! tree of the one-letter and two-letter symbol matches at each position of
//! the word; `Tree::traverse` reads off every complete decomposition.
use crate::table::{lemma_position_of, position_of, ElementTable};
use crate::text::{ascii_lower, ascii_upper};
use vstd::prelude::*;

verus! {

/// What a tree node records: the table index of the element matched there,
/// or that no symbol matched and the path through the node is a dead end.
#[derive(Debug, Clone, Copy, PartialEq, Eq, Structural)]
pub enum Mark {
    Element(usize),
    Dead,
}

/// A tree of the ways a word can be spelled with element symbols. `left`
/// holds what follows when the next symbol is one letter long, `right` what
/// follows when it is two letters long. The mark of the topmost node is not
/// read: the decompositions start at its children.
#[derive(Debug)]
pub struct Tree {
    pub mark: Mark,
    pub left: Option<Box<Tree>>,
    pub right: Option<Box<Tree>>,
}

/// Each path in `ps`, with `i` put in front of it.
pub open spec fn prefix_all(i: usize, ps: Seq<Seq<usize>>) -> Seq<Seq<usize>> {
    ps.map_values(|p: Seq<usize>| seq![i] + p)
}

/// Each path in `ps`, with `pre` put in front of it.
pub open spec fn extend_all(pre: Seq<usize>, ps: Seq<Seq<usize>>) -> Seq<Seq<usize>> {
    ps.map_values(|p: Seq<usize>| pre + p)
}

/// Every way to write `s` as a sequence of symbols of `syms`, as the indices
/// of those symbols, in depth-first order: the ways that begin with a
/// one-letter symbol come before those that begin with a two-letter symbol.
/// Where a symbol occurs twice in `syms`, its first index is used. The empty
/// text has exactly one way, the empty one.
pub open spec fn ways(s: Seq<char>, syms: Seq<Seq<char>>) -> Seq<Seq<usize>>
    decreases s.len(),
{
    if s.len() == 0 {
        seq![Seq::<usize>::empty()]
    } else {
        let one = match position_of(syms, s.take(1)) {
            Some(i) => prefix_all(i, ways(s.skip(1), syms)),
            None => Seq::<Seq<usize>>::empty(),
        };
        let two = if s.len() >= 2 {
            match position_of(syms, s.take(2)) {
                Some(i) => prefix_all(i, ways(s.skip(2), syms)),
                None => Seq::<Seq<usize>>::empty(),
            }
        } else {
            Seq::<Seq<usize>>::empty()
        };
        one + two
    }
}

/// The decompositions of a word: its ways, where the empty word has none.
pub open spec fn decompositions(s: Seq<char>, syms: Seq<Seq<char>>) -> Seq<Seq<usize>> {
    if s.len() == 0 {
        Seq::<Seq<usize>>::empty()
    } else {
        ways(s, syms)
    }
}

/// The index of the one-letter symbol at the start of `s`, if any.
pub open spec fn one_letter(s: Seq<char>, syms: Seq<Seq<char>>) -> Option<usize> {
    position_of(syms, s.take(1))
}

/// The index of the two-letter symbol at the start of `s`, if `s` has two
/// letters and they form one.
pub open spec fn two_letter(s: Seq<char>, syms: Seq<Seq<char>>) -> Option<usize> {
    if s.len() >= 2 {
        position_of(syms, s.take(2))
    } else {
        None
    }
}

/// The tree that `analyze` grows for `s` under a node without children
/// marked `m`: a one-letter child for a one-letter symbol at the start of
/// `s`, grown over the rest of `s`, and likewise a two-letter child; a node
/// where `s` is not empty and neither matched is a dead leaf.
pub open spec fn grown(s: Seq<char>, syms: Seq<Seq<char>>, m: Mark) -> Tree
    decreases s.len(),
{
    if s.len() == 0 {
        Tree { mark: m, left: None, right: None }
    } else {
        let left = match one_letter(s, syms) {
            Some(i) => Some(Box::new(grown(s.skip(1), syms, Mark::Element(i)))),
            None => None,
        };
        let right = match two_letter(s, syms) {
            Some(i) => Some(Box::new(grown(s.skip(2), syms, Mark::Element(i)))),
            None => None,
        };
        Tree {
            mark: if left is None && right is None {
                Mark::Dead
            } else {
                m
            },
            left,
            right,
        }
    }
}

/// The number of levels below a node.
pub open spec fn depth(t: Tree) -> nat
    decreases t,
{
    let l = match t.left {
        Some(c) => 1 + depth(*c),
        None => 0,
    };
    let r = match t.right {
        Some(c) => 1 + depth(*c),
        None => 0,
    };
    if l >= r {
        l as nat
    } else {
        r as nat
    }
}

/// The shape of a grown node: a node that turned dead is a leaf; a one-letter child
/// holds the index of the symbol equal to the word's first letter and is
/// grown over the rest, a two-letter child likewise for the first two
/// letters; and the tree is no deeper than the word is long.
pub proof fn lemma_grown_shape(s: Seq<char>, syms: Seq<Seq<char>>, m: Mark)
    requires
        syms.len() <= usize::MAX,
    ensures
        ({
            let t = grown(s, syms, m);
            &&& m is Element && t.mark is Dead ==> t.left is None && t.right is None
            &&& s.len() == 0 ==> t.mark == m && t.left is None && t.right is None
            &&& t.left is Some ==> {
                let i = one_letter(s, syms)->0;
                &&& one_letter(s, syms) is Some
                &&& i < syms.len()
                &&& syms[i as int] == s.take(1)
                &&& *t.left->0 == grown(s.skip(1), syms, Mark::Element(i))
            }
            &&& t.right is Some ==> {
                let i = two_letter(s, syms)->0;
                &&& two_letter(s, syms) is Some
                &&& s.len() >= 2
                &&& i < syms.len()
                &&& syms[i as int] == s.take(2)
                &&& *t.right->0 == grown(s.skip(2), syms, Mark::Element(i))
            }
            &&& depth(t) <= s.len()
        }),
    decreases s.len(),
{
    if s.len() > 0 {
        lemma_position_of(syms, s.take(1));
        if s.len() >= 2 {
            lemma_position_of(syms, s.take(2));
        }
        if let Some(i) = one_letter(s, syms) {
            lemma_grown_shape(s.skip(1), syms, Mark::Element(i));
        }
        if let Some(i) = two_letter(s, syms) {
            lemma_grown_shape(s.skip(2), syms, Mark::Element(i));
        }
        let t = grown(s, syms, m);
        let l: int = match t.left {
            Some(c) => 1 + depth(*c) as int,
            None => 0,
        };
        let r: int = match t.right {
            Some(c) => 1 + depth(*c) as int,
            None => 0,
        };
        assert(l <= s.len());
        assert(r <= s.len());
    }
}

impl Tree {
    /// The complete paths that start at this node: none through a dead node;
    /// the node's own index alone at a leaf; otherwise that index followed by
    /// each complete path of the one-letter child, then of the two-letter one.
    pub open spec fn node_paths(self) -> Seq<Seq<usize>>
        decreases self,
    {
        match self.mark {
            Mark::Dead => Seq::<Seq<usize>>::empty(),
            Mark::Element(i) => if self.left is None && self.right is None {
                seq![seq![i]]
            } else {
                let l = match self.left {
                    Some(c) => c.node_paths(),
                    None => Seq::<Seq<usize>>::empty(),
                };
                let r = match self.right {
                    Some(c) => c.node_paths(),
                    None => Seq::<Seq<usize>>::empty(),
                };
                prefix_all(i, l + r)
            },
        }
    }

    /// The complete paths below this node (its own mark not read): those of
    /// the one-letter child, then those of the two-letter child.
    pub open spec fn paths(self) -> Seq<Seq<usize>> {
        let l = match self.left {
            Some(c) => c.node_paths(),
            None => Seq::<Seq<usize>>::empty(),
        };
        let r = match self.right {
            Some(c) => c.node_paths(),
            None => Seq::<Seq<usize>>::empty(),
        };
        l + r
    }

    /// A node with no children, to serve as the root of a new tree.
    pub fn empty() -> (r: Self)
        ensures
            r.mark == Mark::Element(0),
            r.left is None,
            r.right is None,
    {
        Tree { mark: Mark::Element(0), left: None, right: None }
    }

    /// A leaf that records the element at `index`.
    pub fn new(index: usize) -> (r: Self)
        ensures
            r.mark == Mark::Element(index),
            r.left is None,
            r.right is None,
    {
        Tree { mark: Mark::Element(index), left: None, right: None }
    }

    /// Every complete path below this node, in depth-first order with the
    /// one-letter child first. Dead nodes cut their paths off.
    pub fn traverse(&self) -> (r: Vec<Vec<usize>>)
        ensures
            r.deep_view() == self.paths(),
    {
        let mut all_paths: Vec<Vec<usize>> = Vec::new();
        let mut current_path: Vec<usize> = Vec::new();
        assert(all_paths.deep_view() =~= Seq::<Seq<usize>>::empty());
        let left = rem_box_ref(&self.left);
        let right = rem_box_ref(&self.right);
        // Paths whose first symbol is one letter long
        Tree::depth_first_search(left, &mut current_path, &mut all_paths);
        // Paths whose first symbol is two letters long
        Tree::depth_first_search(right, &mut current_path, &mut all_paths);
        proof {
            lemma_extend_empty(opt_paths(left));
            lemma_extend_empty(opt_paths(right));
        }
        all_paths
    }

    /// Appends to `all_paths` each complete path that starts at `node`, with
    /// `path` in front of it, and leaves `path` as it was.
    fn depth_first_search(node: Option<&Self>, path: &mut Vec<usize>, all_paths: &mut Vec<Vec<usize>>)
        ensures
            final(path)@ == old(path)@,
            final(all_paths).deep_view() == old(all_paths).deep_view() + extend_all(
                old(path)@,
                opt_paths(node),
            ),
        decreases node,
    {
        let tree = match node {
            Some(t) => t,
            None => {
                assert(extend_all(path@, opt_paths(node)) =~= Seq::<Seq<usize>>::empty());
                assert(all_paths.deep_view() =~= old(all_paths).deep_view() + Seq::<Seq<usize>>::empty());
                return;
            },
        };
        // A dead node ends its path, which is then thrown away
        let index = match tree.mark {
            Mark::Element(i) => i,
            Mark::Dead => {
                assert(extend_all(path@, opt_paths(node)) =~= Seq::<Seq<usize>>::empty());
                assert(all_paths.deep_view() =~= old(all_paths).deep_view() + Seq::<Seq<usize>>::empty());
                return;
            },
        };
        path.push(index);
        if tree.left.is_none() && tree.right.is_none() {
            let done = path.clone();
            assert(done@ == path@);
            assert(done.deep_view() =~= path@);
            assert(old(path)@ + seq![index] =~= path@);
            let ghost before = all_paths.deep_view();
            all_paths.push(done);
            assert(all_paths.deep_view() =~= before.push(path@));
            assert(extend_all(old(path)@, opt_paths(node)) =~= seq![path@]);
            assert(all_paths.deep_view() =~= old(all_paths).deep_view() + seq![path@]);
        } else {
            let left = rem_box_ref(&tree.left);
            let right = rem_box_ref(&tree.right);
            Tree::depth_first_search(left, path, all_paths);
            Tree::depth_first_search(right, path, all_paths);
            proof {
                lemma_extend_prefix(old(path)@, index, opt_paths(left), opt_paths(right));
                assert(all_paths.deep_view() =~= old(all_paths).deep_view() + extend_all(
                    old(path)@,
                    opt_paths(node),
                ));
            }
        }
        path.pop();
    }

    /// A copy of the whole tree.
    pub fn duplicate(&self) -> (r: Self)
        ensures
            r == *self,
        decreases self,
    {
        let left = match &self.left {
            Some(c) => Some(Box::new(c.duplicate())),
            None => None,
        };
        let right = match &self.right {
            Some(c) => Some(Box::new(c.duplicate())),
            None => None,
        };
        Tree { mark: self.mark, left, right }
    }
}

/// The text spelled by the symbols at the indices of `p`, in order.
pub open spec fn spell(p: Seq<usize>, syms: Seq<Seq<char>>) -> Seq<char>
    decreases p.len(),
{
    if p.len() == 0 {
        Seq::<char>::empty()
    } else {
        syms[p[0] as int] + spell(p.drop_first(), syms)
    }
}

/// Every decomposition indexes the symbol table only within its bounds, and
/// writing out its symbols in order gives back exactly the word.
pub proof fn lemma_decompositions_spell_word(s: Seq<char>, syms: Seq<Seq<char>>, k: int)
    requires
        syms.len() <= usize::MAX,
        0 <= k < decompositions(s, syms).len(),
    ensures
        forall|j: int|
            0 <= j < decompositions(s, syms)[k].len() ==> #[trigger] decompositions(s, syms)[k][j]
                < syms.len(),
        spell(decompositions(s, syms)[k], syms) == s,
{
    lemma_ways_spell_word(s, syms, k);
}

proof fn lemma_ways_spell_word(s: Seq<char>, syms: Seq<Seq<char>>, k: int)
    requires
        syms.len() <= usize::MAX,
        0 <= k < ways(s, syms).len(),
    ensures
        forall|j: int| 0 <= j < ways(s, syms)[k].len() ==> #[trigger] ways(s, syms)[k][j] < syms.len(),
        spell(ways(s, syms)[k], syms) == s,
    decreases s.len(),
{
    if s.len() > 0 {
        let p = ways(s, syms)[k];
        let one = match position_of(syms, s.take(1)) {
            Some(i) => prefix_all(i, ways(s.skip(1), syms)),
            None => Seq::<Seq<usize>>::empty(),
        };
        if k < one.len() {
            let i = position_of(syms, s.take(1))->0;
            lemma_position_of(syms, s.take(1));
            let rest = s.skip(1);
            lemma_ways_spell_word(rest, syms, k);
            let q = ways(rest, syms)[k];
            assert(p == seq![i] + q);
            assert(p.drop_first() =~= q);
            assert(s.take(1) + rest =~= s);
        } else {
            let i = position_of(syms, s.take(2))->0;
            lemma_position_of(syms, s.take(2));
            let rest = s.skip(2);
            let k2 = k - one.len();
            lemma_ways_spell_word(rest, syms, k2);
            let q = ways(rest, syms)[k2];
            assert(p == seq![i] + q);
            assert(p.drop_first() =~= q);
            assert(s.take(2) + rest =~= s);
        }
    }
}

/// The empty word has no decomposition.
pub proof fn lemma_empty_word_has_none(syms: Seq<Seq<char>>)
    ensures
        decompositions(Seq::<char>::empty(), syms) == Seq::<Seq<usize>>::empty(),
{
}

/// A word none of whose letters, nor any two adjacent letters, is a symbol
/// has no decomposition.
pub proof fn lemma_unmatched_word_has_none(s: Seq<char>, syms: Seq<Seq<char>>)
    requires
        forall|i: int, j: int|
            0 <= i < s.len() && j == i + 1 ==> position_of(syms, #[trigger] s.subrange(i, j)) is None,
        forall|i: int, j: int|
            0 <= i && j == i + 2 && j <= s.len() ==> position_of(syms, #[trigger] s.subrange(i, j))
                is None,
    ensures
        decompositions(s, syms) == Seq::<Seq<usize>>::empty(),
{
    if s.len() > 0 {
        assert(s.subrange(0, 1) =~= s.take(1));
        assert(position_of(syms, s.subrange(0, 1)) is None);
        if s.len() >= 2 {
            assert(s.subrange(0, 2) =~= s.take(2));
            assert(position_of(syms, s.subrange(0, 2)) is None);
        }
        assert(ways(s, syms) =~= Seq::<Seq<usize>>::empty());
    }
}

/// The decompositions of `word`, lower-cased, into symbols of `table`.
pub fn segment(word: &str, table: &ElementTable) -> (r: Vec<Vec<usize>>)
    requires
        table.wf(),
    ensures
        r.deep_view() == decompositions(lower_word(word@), table.symbols()),
        forall|k: int, j: int|
            0 <= k < r@.len() && 0 <= j < r@[k]@.len() ==> #[trigger] r@[k]@[j] < table.len_spec(),
{
    let lower = word.to_ascii_lowercase();
    let mut root = Box::new(Tree::empty());
    let _ = analyze(lower, table, &mut root);
    let r = root.traverse();
    proof {
        table.lemma_wf_lens();
        assert forall|k: int, j: int|
            0 <= k < r@.len() && 0 <= j < r@[k]@.len() implies #[trigger] r@[k]@[j]
            < table.len_spec() by {
            lemma_decompositions_spell_word(lower_word(word@), table.symbols(), k);
            assert(r.deep_view()[k] == r@[k]@);
        }
    }
    r
}

/// `w` with its ASCII letters in lower case.
pub open spec fn lower_word(w: Seq<char>) -> Seq<char> {
    w.map_values(|c: char| ascii_lower(c))
}

/// The name and mass text of each element of `path`, in order.
pub fn resolve(path: &Vec<usize>, table: &ElementTable) -> (r: Vec<(String, String)>)
    requires
        table.wf(),
        forall|j: int| 0 <= j < path@.len() ==> #[trigger] path@[j] < table.len_spec(),
    ensures
        r@.len() == path@.len(),
        forall|j: int|
            0 <= j < path@.len() ==> (#[trigger] r@[j]).0@ == table.names()[path@[j] as int]
                && r@[j].1@ == table.masses()[path@[j] as int],
{
    let mut out: Vec<(String, String)> = Vec::new();
    let mut j: usize = 0;
    while j < path.len()
        invariant
            table.wf(),
            forall|j: int| 0 <= j < path@.len() ==> #[trigger] path@[j] < table.len_spec(),
            j <= path@.len(),
            out@.len() == j,
            forall|i: int|
                0 <= i < j ==> (#[trigger] out@[i]).0@ == table.names()[path@[i] as int]
                    && out@[i].1@ == table.masses()[path@[i] as int],
        decreases path@.len() - j,
    {
        out.push(table.record_at(path[j]));
        j = j + 1;
    }
    out
}

/// The name and mass text of each element of each path.
pub fn get_results(paths: Vec<Vec<usize>>, table: &ElementTable) -> (r: Vec<Vec<(String, String)>>)
    requires
        table.wf(),
        forall|k: int, j: int|
            0 <= k < paths@.len() && 0 <= j < paths@[k]@.len() ==> #[trigger] paths@[k]@[j]
                < table.len_spec(),
    ensures
        r@.len() == paths@.len(),
        forall|k: int| 0 <= k < paths@.len() ==> (#[trigger] r@[k])@.len() == paths@[k]@.len(),
        forall|k: int, j: int|
            0 <= k < paths@.len() && 0 <= j < paths@[k]@.len() ==> (#[trigger] r@[k]@[j]).0@
                == table.names()[paths@[k]@[j] as int] && r@[k]@[j].1@
                == table.masses()[paths@[k]@[j] as int],
{
    let mut out: Vec<Vec<(String, String)>> = Vec::new();
    let mut k: usize = 0;
    while k < paths.len()
        invariant
            table.wf(),
            forall|k: int, j: int|
                0 <= k < paths@.len() && 0 <= j < paths@[k]@.len() ==> #[trigger] paths@[k]@[j]
                    < table.len_spec(),
            k <= paths@.len(),
            out@.len() == k,
            forall|i: int| 0 <= i < k ==> (#[trigger] out@[i])@.len() == paths@[i]@.len(),
            forall|i: int, j: int|
                0 <= i < k && 0 <= j < paths@[i]@.len() ==> (#[trigger] out@[i]@[j]).0@
                    == table.names()[paths@[i]@[j] as int] && out@[i]@[j].1@
                    == table.masses()[paths@[i]@[j] as int],
        decreases paths@.len() - k,
    {
        let row = resolve(&paths[k], table);
        out.push(row);
        k = k + 1;
    }
    out
}

/// Capitalises the first letter of `str` if it is an ASCII letter.
pub fn make_ascii_titlecase(str: &mut String)
    ensures
        final(str)@ == if old(str)@.len() == 0 {
            old(str)@
        } else {
            old(str)@.update(0, ascii_upper(old(str)@[0]))
        },
{
    let s = str.as_str();
    let n = s.unicode_len();
    if n > 0 {
        let head = s.substring_char(0, 1).to_ascii_uppercase();
        let rest = s.substring_char(1, n);
        let titled = head.concat(rest);
        assert(titled@ =~= old(str)@.update(0, ascii_upper(old(str)@[0])));
        *str = titled;
    }
}

/// The complete paths that start at the node, if there is one.
pub open spec fn opt_paths(node: Option<&Tree>) -> Seq<Seq<usize>> {
    match node {
        Some(t) => t.node_paths(),
        None => Seq::<Seq<usize>>::empty(),
    }
}

/// The child in an optional box, borrowed.
fn rem_box_ref<'a, T>(option: &'a Option<Box<T>>) -> (r: Option<&'a T>)
    ensures
        match *option {
            Some(b) => r == Some(&*b),
            None => r is None,
        },
{
    match option {
        Some(b) => Some(&**b),
        None => None,
    }
}

proof fn lemma_extend_empty(ps: Seq<Seq<usize>>)
    ensures
        extend_all(Seq::<usize>::empty(), ps) == ps,
{
    assert forall|k: int| 0 <= k < ps.len() implies Seq::<usize>::empty() + ps[k] == ps[k] by {
        assert(Seq::<usize>::empty() + ps[k] =~= ps[k]);
    }
    assert(extend_all(Seq::<usize>::empty(), ps) =~= ps);
}

proof fn lemma_extend_prefix(pre: Seq<usize>, i: usize, l: Seq<Seq<usize>>, r: Seq<Seq<usize>>)
    ensures
        extend_all(pre, prefix_all(i, l + r)) == extend_all(pre.push(i), l) + extend_all(
            pre.push(i),
            r,
        ),
{
    let lhs = extend_all(pre, prefix_all(i, l + r));
    let rhs = extend_all(pre.push(i), l) + extend_all(pre.push(i), r);
    assert forall|k: int| 0 <= k < lhs.len() implies lhs[k] == rhs[k] by {
        let p = (l + r)[k];
        assert(pre + (seq![i] + p) =~= pre.push(i) + p);
    }
    assert(lhs =~= rhs);
}

/// Grows under `tree` the symbol matches of `word`, a lower-case word, and
/// returns a copy of the grown tree; the empty word grows nothing and gives
/// `None`.
///
/// At the word's first letter: if it is a symbol, a new one-letter child
/// records its index and grows what follows the letter. If the word has one
/// letter, the two-letter child is cleared; otherwise, if the first two
/// letters are a symbol, a new two-letter child records its index and grows
/// what follows them. If neither matched, the node is marked dead.
///
/// Grown under a node without children, the tree is exactly `grown` of the
/// word, and its complete paths below the node are exactly the word's
/// decompositions.
pub fn analyze(word: String, table: &ElementTable, tree: &mut Box<Tree>) -> (r: Option<Tree>)
    ensures
        ({
            let s = word@;
            let syms = table.symbols();
            let one = one_letter(s, syms);
            let two = two_letter(s, syms);
            &&& (s.len() == 0 <==> r is None)
            &&& s.len() == 0 ==> *final(tree) == *old(tree)
            &&& s.len() > 0 ==> {
                &&& r == Some(**final(tree))
                &&& match one {
                    Some(i) => final(tree).left == Some(
                        Box::new(grown(s.skip(1), syms, Mark::Element(i))),
                    ) && final(tree).left->0.node_paths() == prefix_all(i, ways(s.skip(1), syms)),
                    None => final(tree).left == old(tree).left,
                }
                &&& s.len() == 1 ==> final(tree).right is None
                &&& s.len() >= 2 ==> match two {
                    Some(i) => final(tree).right == Some(
                        Box::new(grown(s.skip(2), syms, Mark::Element(i))),
                    ) && final(tree).right->0.node_paths() == prefix_all(i, ways(s.skip(2), syms)),
                    None => final(tree).right == old(tree).right,
                }
                &&& final(tree).mark == if one is None && two is None {
                    Mark::Dead
                } else {
                    old(tree).mark
                }
            }
            &&& old(tree).left is None && old(tree).right is None ==> {
                &&& **final(tree) == grown(s, syms, old(tree).mark)
                &&& final(tree).paths() == decompositions(s, syms)
                &&& old(tree).mark is Element ==> final(tree).node_paths() == prefix_all(
                    old(tree).mark->0,
                    ways(s, syms),
                )
            }
        }),
    decreases word@.len(),
{
    let ghost syms = table.symbols();
    let s = word.as_str();
    let n = s.unicode_len();
    if n == 0 {
        assert(prefix_all(tree.mark->0, ways(s@, syms)) =~= seq![seq![tree.mark->0]]);
        return None;
    }
    let mut found_valid_element = false;
    // One-letter symbol
    let first = s.substring_char(0, 1);
    assert(first@ =~= s@.take(1));
    match table.find_index(first) {
        Some(i) => {
            found_valid_element = true;
            let mut child = Box::new(Tree::new(i));
            let rest = s.substring_char(1, n).to_owned();
            assert(rest@ =~= s@.skip(1));
            let _ = analyze(rest, table, &mut child);
            tree.left = Some(child);
        },
        None => {},
    }
    if n == 1 {
        tree.right = None;
        if !found_valid_element {
            tree.mark = Mark::Dead;
        }
        assert(ways(s@, syms) =~= match one_letter(s@, syms) {
            Some(i) => prefix_all(i, ways(s@.skip(1), syms)),
            None => Seq::<Seq<usize>>::empty(),
        });
        return Some(tree.duplicate());
    }
    // Two-letter symbol
    let pair = s.substring_char(0, 2);
    assert(pair@ =~= s@.take(2));
    match table.find_index(pair) {
        Some(i) => {
            found_valid_element = true;
            let mut child = Box::new(Tree::new(i));
            let rest = s.substring_char(2, n).to_owned();
            assert(rest@ =~= s@.skip(2));
            let _ = analyze(rest, table, &mut child);
            tree.right = Some(child);
        },
        None => {},
    }
    if !found_valid_element {
        tree.mark = Mark::Dead;
    }
    Some(tree.duplicate())
}

} // verus!
