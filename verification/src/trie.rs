//! Prefix codes and the binary tree that decodes them.
//!
//! A code table gives each of the 256 byte values an optional code, a
//! non-empty sequence of bits. The tree holds one node for every prefix of
//! every code; the node at the end of a code carries the symbol.

use vstd::prelude::*;
use crate::bits::{code_bits, read_bit, stream_bits, BitPos};
use crate::error::{result_view, Error};

verus! {

/// The number of symbols of a code table.
pub const SYMBOLS: usize = 256;

/// The longest code, in bits.
pub const MAX_CODE_LEN: usize = 16;

/// Whether `p` is the beginning of `code`.
pub open spec fn is_prefix(p: Seq<bool>, code: Seq<bool>) -> bool {
    p.len() <= code.len() && code.subrange(0, p.len() as int) == p
}

/// Whether the non-empty bit sequence `p` is the code of symbol `s`.
pub open spec fn is_code_of(codes: Seq<Seq<bool>>, p: Seq<bool>, s: int) -> bool {
    0 <= s < codes.len() && p.len() > 0 && codes[s] == p
}

/// Whether `p` is the code of some symbol.
pub open spec fn is_code(codes: Seq<Seq<bool>>, p: Seq<bool>) -> bool {
    exists|s: int| is_code_of(codes, p, s)
}

/// The symbol whose code is `p`.
pub open spec fn symbol_of(codes: Seq<Seq<bool>>, p: Seq<bool>) -> u8 {
    (choose|s: int| is_code_of(codes, p, s)) as u8
}

/// Whether the non-empty bit sequence `p` begins the code of symbol `s`.
pub open spec fn begins_code_of(codes: Seq<Seq<bool>>, p: Seq<bool>, s: int) -> bool {
    0 <= s < codes.len() && p.len() > 0 && is_prefix(p, codes[s])
}

/// Whether `p` begins the code of some symbol.
pub open spec fn begins_code(codes: Seq<Seq<bool>>, p: Seq<bool>) -> bool {
    exists|s: int| begins_code_of(codes, p, s)
}

/// Whether two symbols have the same code.
pub open spec fn collides(codes: Seq<Seq<bool>>) -> bool {
    exists|a: int, b: int|
        0 <= a < b < codes.len() && codes[a].len() > 0 && #[trigger] codes[a] == #[trigger] codes[b]
}

/// The table in which no symbol has a code.
pub open spec fn no_codes() -> Seq<Seq<bool>> {
    Seq::new(SYMBOLS as nat, |s: int| Seq::<bool>::empty())
}

/// A node of the tree: the indices of its children and, at the end of a
/// code, the symbol.
#[derive(Clone, Copy)]
struct Node {
    left: Option<usize>,
    right: Option<usize>,
    value: Option<u8>,
}

impl Node {
    /// The child in the direction of `bit`: left for 0, right for 1.
    spec fn child(self, bit: bool) -> Option<usize> {
        if bit {
            self.right
        } else {
            self.left
        }
    }
}

/// A code tree, stored as an array of nodes whose first entry is the root.
pub struct Tree {
    nodes: Vec<Node>,
    codes: Ghost<Seq<Seq<bool>>>,
    paths: Ghost<Seq<Seq<bool>>>,
    parents: Ghost<Seq<int>>,
}

impl View for Tree {
    type V = Seq<Seq<bool>>;

    /// The code of each symbol; the empty sequence where it has none.
    closed spec fn view(&self) -> Seq<Seq<bool>> {
        self.codes@
    }
}

impl Tree {
    /// The node array and the paths agree: every link leads from a path to
    /// the path one bit longer, every node but the root is linked from its
    /// parent, and no two nodes have the same path.
    spec fn linked(&self) -> bool {
        let nodes = self.nodes@;
        let paths = self.paths@;
        let parents = self.parents@;
        &&& nodes.len() >= 1
        &&& paths.len() == nodes.len()
        &&& parents.len() == nodes.len()
        &&& paths[0].len() == 0
        &&& forall|i: int, b: bool|
            0 <= i < nodes.len() && (#[trigger] nodes[i].child(b)) is Some ==> {
                let c = nodes[i].child(b).unwrap() as int;
                0 < c < nodes.len() && paths[c] == paths[i].push(b)
            }
        &&& forall|j: int|
            0 < j < nodes.len() ==> {
                let q = #[trigger] parents[j];
                &&& 0 <= q < nodes.len()
                &&& paths[j].len() > 0
                &&& paths[q] == paths[j].drop_last()
                &&& nodes[q].child(paths[j].last()) == Some(j as usize)
            }
        &&& forall|i: int, j: int|
            0 <= i < nodes.len() && 0 <= j < nodes.len() && #[trigger] paths[i] == #[trigger] paths[j]
                ==> i == j
    }

    /// Whether some node has the path `p`.
    spec fn has_path(&self, p: Seq<bool>) -> bool {
        exists|i: int| 0 <= i < self.paths@.len() && #[trigger] self.paths@[i] == p
    }

    /// The node with the path `p`.
    spec fn node_at(&self, p: Seq<bool>) -> int {
        choose|i: int| 0 <= i < self.paths@.len() && #[trigger] self.paths@[i] == p
    }

    /// The nodes are those on the way to the codes in `codes`, each of which
    /// is no prefix of `extra`; and the symbols sit at the ends of their codes.
    spec fn holds(&self, codes: Seq<Seq<bool>>, extra: Seq<bool>) -> bool {
        let nodes = self.nodes@;
        let paths = self.paths@;
        &&& codes.len() == SYMBOLS
        &&& forall|s: int| 0 <= s < codes.len() ==> (#[trigger] codes[s]).len() <= MAX_CODE_LEN
        &&& forall|i: int|
            0 < i < nodes.len() ==> begins_code(codes, #[trigger] paths[i]) || is_prefix(
                paths[i],
                extra,
            )
        &&& forall|s: int, k: int|
            0 <= s < codes.len() && 0 < k <= codes[s].len() ==> self.has_path(
                #[trigger] codes[s].subrange(0, k),
            )
        &&& forall|s: int|
            0 <= s < codes.len() && (#[trigger] codes[s]).len() > 0 ==> nodes[self.node_at(
                codes[s],
            )].value == Some(s as u8)
        &&& forall|i: int|
            0 <= i < nodes.len() && (#[trigger] nodes[i].value) is Some ==> {
                let v = nodes[i].value.unwrap() as int;
                codes[v] == paths[i] && paths[i].len() > 0
            }
    }

    /// The tree is consistent with the code table that it stands for.
    pub closed spec fn wf(&self) -> bool {
        self.linked() && self.holds(self.codes@, Seq::empty())
    }

    /// A well-formed tree has a code table of 256 entries, none longer than
    /// 16 bits, in which no two symbols share a code.
    pub proof fn lemma_view(&self)
        requires
            self.wf(),
        ensures
            self@.len() == SYMBOLS,
            forall|s: int| 0 <= s < SYMBOLS ==> (#[trigger] self@[s]).len() <= MAX_CODE_LEN,
            !collides(self@),
    {
        let codes = self.codes@;
        if collides(codes) {
            let (a, b) = choose|a: int, b: int|
                0 <= a < b < codes.len() && codes[a].len() > 0 && #[trigger] codes[a]
                    == #[trigger] codes[b];
            assert(self.nodes@[self.node_at(codes[a])].value == Some(a as u8));
            assert(self.nodes@[self.node_at(codes[b])].value == Some(b as u8));
        }
    }

    /// The tree without any code.
    pub fn new() -> (t: Tree)
        ensures
            t.wf(),
            t@ == no_codes(),
    {
        let mut nodes: Vec<Node> = Vec::new();
        nodes.push(Node { left: None, right: None, value: None });
        let t = Tree {
            nodes,
            codes: Ghost(no_codes()),
            paths: Ghost(Seq::<Seq<bool>>::empty().push(Seq::<bool>::empty())),
            parents: Ghost(Seq::<int>::empty().push(0int)),
        };
        assert(t.linked());
        assert(t.holds(t.codes@, Seq::empty()));
        t
    }

    /// Paths of a tree are kept when nodes are added behind them.
    proof fn lemma_has_path_kept(&self, before: &Tree, p: Seq<bool>)
        requires
            before.has_path(p),
            before.paths@.len() <= self.paths@.len(),
            forall|i: int| 0 <= i < before.paths@.len() ==> self.paths@[i] == before.paths@[i],
        ensures
            self.has_path(p),
    {
        let i = choose|i: int| 0 <= i < before.paths@.len() && #[trigger] before.paths@[i] == p;
        assert(self.paths@[i] == p);
    }

    /// In a linked tree the node with a given path is unique.
    proof fn lemma_node_at(&self, i: int)
        requires
            self.linked(),
            0 <= i < self.nodes@.len(),
        ensures
            self.has_path(self.paths@[i]),
            self.node_at(self.paths@[i]) == i,
    {
        let p = self.paths@[i];
        assert(0 <= i < self.nodes@.len() && self.paths@[i] == p);
        let j = self.node_at(p);
        assert(0 <= j < self.nodes@.len() && self.paths@[j] == p);
    }

    /// Where a node lacks a child, no node has the path that the child
    /// would have.
    proof fn lemma_missing_child(&self, i: int, b: bool)
        requires
            self.linked(),
            0 <= i < self.nodes@.len(),
            self.nodes@[i].child(b) is None,
        ensures
            !self.has_path(self.paths@[i].push(b)),
    {
        let p = self.paths@[i].push(b);
        if self.has_path(p) {
            let j = self.node_at(p);
            assert(0 <= j < self.nodes@.len() && self.paths@[j] == p);
            assert(p.len() > 0);
            assert(j != 0);
            let q = self.parents@[j];
            assert(p.drop_last() =~= self.paths@[i]);
            assert(self.paths@[q] == self.paths@[i]);
            assert(q == i);
            assert(p.last() == b);
        }
    }

    /// Adds the code of `length` bits with the numeric value `bits` for
    /// `symbol`, which has no code yet. Fails where another symbol has
    /// that code already.
    fn insert(&mut self, symbol: u8, length: usize, bits: u16) -> (r: Result<(), Error>)
        requires
            old(self).wf(),
            old(self)@[symbol as int].len() == 0,
            1 <= length <= MAX_CODE_LEN,
        ensures
            r is Err <==> is_code(old(self)@, code_bits(length as int, bits)),
            r is Err ==> r == Err::<(), Error>(Error::MalformedHuffman),
            r is Ok ==> final(self).wf() && final(self)@ == old(self)@.update(
                symbol as int,
                code_bits(length as int, bits),
            ),
    {
        let ghost code = code_bits(length as int, bits);
        let ghost codes = self.codes@;
        let mut cur: usize = 0;
        let mut k: usize = 0;
        proof {
            assert(code.subrange(0, 0) =~= Seq::<bool>::empty());
            assert(self.paths@[0] =~= Seq::<bool>::empty());
            assert forall|i: int| 0 < i < self.nodes@.len() implies begins_code(
                codes,
                #[trigger] self.paths@[i],
            ) || is_prefix(self.paths@[i], code) by {
                let q = self.parents@[i];
                assert(0 <= q);
                assert(!is_prefix(self.paths@[i], Seq::<bool>::empty()));
            }
        }
        while k < length
            invariant
                k <= length <= MAX_CODE_LEN,
                code == code_bits(length as int, bits),
                code.len() == length,
                codes.len() == SYMBOLS,
                codes[symbol as int].len() == 0,
                self.codes@ == codes,
                self.linked(),
                self.holds(codes, code),
                0 <= cur < self.nodes@.len(),
                self.paths@[cur as int] == code.subrange(0, k as int),
                forall|j: int| 0 < j <= k ==> self.has_path(#[trigger] code.subrange(0, j)),
            decreases length - k,
        {
            let shift: u16 = (length - 1 - k) as u16;
            let bit = (bits >> shift) & 1 == 1;
            assert(bit == code[k as int]);
            let ghost next = code.subrange(0, k as int + 1);
            assert(next =~= self.paths@[cur as int].push(bit));
            let node = self.nodes[cur];
            let child = if bit {
                node.right
            } else {
                node.left
            };
            assert(child == node.child(bit));
            match child {
                Some(c) => {
                    proof {
                        self.lemma_node_at(c as int);
                    }
                    cur = c;
                },
                None => {
                    let ghost before = *self;
                    proof {
                        self.lemma_missing_child(cur as int, bit);
                    }
                    let m = self.nodes.len();
                    self.nodes.push(Node { left: None, right: None, value: None });
                    let updated = if bit {
                        Node { left: node.left, right: Some(m), value: node.value }
                    } else {
                        Node { left: Some(m), right: node.right, value: node.value }
                    };
                    self.nodes.set(cur, updated);
                    self.paths = Ghost(self.paths@.push(next));
                    self.parents = Ghost(self.parents@.push(cur as int));
                    proof {
                        self.lemma_grown(&before, cur as int, bit, codes, code);
                        self.lemma_node_at(m as int);
                        assert forall|j: int| 0 < j <= k implies self.has_path(
                            #[trigger] code.subrange(0, j),
                        ) by {
                            self.lemma_has_path_kept(&before, code.subrange(0, j));
                        }
                    }
                    cur = m;
                },
            }
            k = k + 1;
        }
        assert(code.subrange(0, length as int) =~= code);
        let node = self.nodes[cur];
        proof {
            self.lemma_node_at(cur as int);
        }
        match node.value {
            Some(v) => {
                assert(is_code_of(codes, code, v as int));
                Err(Error::MalformedHuffman)
            },
            None => {
                let ghost before = *self;
                proof {
                    if is_code(codes, code) {
                        let s = choose|s: int| is_code_of(codes, code, s);
                        assert(self.nodes@[self.node_at(codes[s])].value == Some(s as u8));
                    }
                }
                self.nodes.set(cur, Node { left: node.left, right: node.right, value: Some(symbol) });
                self.codes = Ghost(codes.update(symbol as int, code));
                proof {
                    self.lemma_labelled(&before, cur as int, symbol, codes, code);
                }
                Ok(())
            },
        }
    }

    /// Adding a node below a missing child keeps the tree linked and on the
    /// way to the codes or to the code being added.
    proof fn lemma_grown(&self, before: &Tree, cur: int, bit: bool, codes: Seq<Seq<bool>>, code: Seq<bool>)
        requires
            before.linked(),
            before.holds(codes, code),
            0 <= cur < before.nodes@.len(),
            before.nodes@[cur].child(bit) is None,
            !before.has_path(before.paths@[cur].push(bit)),
            is_prefix(before.paths@[cur].push(bit), code),
            before.nodes@.len() <= usize::MAX,
            self.nodes@ == before.nodes@.push(Node { left: None, right: None, value: None }).update(
                cur,
                if bit {
                    Node {
                        left: before.nodes@[cur].left,
                        right: Some(before.nodes@.len() as usize),
                        value: before.nodes@[cur].value,
                    }
                } else {
                    Node {
                        left: Some(before.nodes@.len() as usize),
                        right: before.nodes@[cur].right,
                        value: before.nodes@[cur].value,
                    }
                },
            ),
            self.paths@ == before.paths@.push(before.paths@[cur].push(bit)),
            self.parents@ == before.parents@.push(cur),
        ensures
            self.linked(),
            self.holds(codes, code),
    {
        let m = before.nodes@.len() as int;
        let next = before.paths@[cur].push(bit);
        let nodes = self.nodes@;
        let paths = self.paths@;
        let parents = self.parents@;
        assert(next.drop_last() =~= before.paths@[cur]);
        assert(next.last() == bit);
        assert forall|i: int| 0 <= i < m implies #[trigger] paths[i] != next by {
            if paths[i] == next {
                assert(before.paths@[i] == next);
                assert(before.has_path(next));
            }
        }
        assert forall|i: int, b: bool|
            0 <= i < nodes.len() && (#[trigger] nodes[i].child(b)) is Some implies {
            let c = nodes[i].child(b).unwrap() as int;
            0 < c < nodes.len() && paths[c] == paths[i].push(b)
        } by {
            if i == m {
            } else if i == cur && b == bit {
            } else {
                assert(nodes[i].child(b) == before.nodes@[i].child(b));
            }
        }
        assert forall|j: int| 0 < j < nodes.len() implies {
            let q = #[trigger] parents[j];
            &&& 0 <= q < nodes.len()
            &&& paths[j].len() > 0
            &&& paths[q] == paths[j].drop_last()
            &&& nodes[q].child(paths[j].last()) == Some(j as usize)
        } by {
            if j < m {
                let q = before.parents@[j];
                assert(before.nodes@[q].child(before.paths@[j].last()) == Some(j as usize));
                if q == cur {
                    assert(before.paths@[j].last() != bit);
                }
            }
        }
        assert forall|i: int, j: int|
            0 <= i < nodes.len() && 0 <= j < nodes.len() && #[trigger] paths[i]
                == #[trigger] paths[j] implies i == j by {
            if i < m && j < m {
                assert(before.paths@[i] == before.paths@[j]);
            }
        }
        assert(self.linked());
        assert forall|i: int| 0 < i < nodes.len() implies begins_code(codes, #[trigger] paths[i])
            || is_prefix(paths[i], code) by {
            if i < m {
                assert(paths[i] == before.paths@[i]);
            }
        }
        assert forall|s: int, k: int| 0 <= s < codes.len() && 0 < k <= codes[s].len() implies self.has_path(
            #[trigger] codes[s].subrange(0, k),
        ) by {
            self.lemma_has_path_kept(before, codes[s].subrange(0, k));
        }
        assert forall|s: int| 0 <= s < codes.len() && (#[trigger] codes[s]).len() > 0 implies nodes[self.node_at(
            codes[s],
        )].value == Some(s as u8) by {
            assert(codes[s].subrange(0, codes[s].len() as int) =~= codes[s]);
            assert(before.has_path(codes[s]));
            let i = before.node_at(codes[s]);
            assert(0 <= i < m && before.paths@[i] == codes[s]);
            assert(paths[i] == codes[s]);
            self.lemma_node_at(i);
        }
        assert forall|i: int| 0 <= i < nodes.len() && (#[trigger] nodes[i].value) is Some implies {
            let v = nodes[i].value.unwrap() as int;
            codes[v] == paths[i] && paths[i].len() > 0
        } by {
            assert(i < m);
            assert(nodes[i].value == before.nodes@[i].value);
        }
    }

    /// Writing the symbol at the end of its code makes the tree stand for
    /// the table with that code added.
    proof fn lemma_labelled(&self, before: &Tree, cur: int, symbol: u8, codes: Seq<Seq<bool>>, code: Seq<bool>)
        requires
            before.linked(),
            before.holds(codes, code),
            codes[symbol as int].len() == 0,
            0 < code.len() <= MAX_CODE_LEN,
            0 <= cur < before.nodes@.len(),
            before.paths@[cur] == code,
            before.nodes@[cur].value is None,
            forall|j: int| 0 < j <= code.len() ==> before.has_path(#[trigger] code.subrange(0, j)),
            self.nodes@ == before.nodes@.update(
                cur,
                Node {
                    left: before.nodes@[cur].left,
                    right: before.nodes@[cur].right,
                    value: Some(symbol),
                },
            ),
            self.paths@ == before.paths@,
            self.parents@ == before.parents@,
            self.codes@ == codes.update(symbol as int, code),
        ensures
            self.wf(),
    {
        let nodes = self.nodes@;
        let paths = self.paths@;
        let parents = self.parents@;
        let after = self.codes@;
        assert forall|i: int, b: bool|
            0 <= i < nodes.len() && (#[trigger] nodes[i].child(b)) is Some implies {
            let c = nodes[i].child(b).unwrap() as int;
            0 < c < nodes.len() && paths[c] == paths[i].push(b)
        } by {
            assert(nodes[i].child(b) == before.nodes@[i].child(b));
        }
        assert forall|j: int| 0 < j < nodes.len() implies {
            let q = #[trigger] parents[j];
            &&& 0 <= q < nodes.len()
            &&& paths[j].len() > 0
            &&& paths[q] == paths[j].drop_last()
            &&& nodes[q].child(paths[j].last()) == Some(j as usize)
        } by {
            let q = before.parents@[j];
            assert(nodes[q].child(paths[j].last()) == before.nodes@[q].child(paths[j].last()));
        }
        assert(self.linked());
        assert forall|p: Seq<bool>| before.has_path(p) implies self.has_path(p) by {
            self.lemma_has_path_kept(before, p);
        }
        assert forall|s: int| 0 <= s < after.len() implies (#[trigger] after[s]).len()
            <= MAX_CODE_LEN by {
            if s != symbol {
                assert(after[s] == codes[s]);
            }
        }
        assert forall|i: int| 0 < i < nodes.len() implies begins_code(after, #[trigger] paths[i])
            || is_prefix(paths[i], Seq::<bool>::empty()) by {
            let q = parents[i];
            assert(0 <= q);
            assert(paths[i].len() > 0);
            if begins_code(codes, paths[i]) {
                let s = choose|s: int| begins_code_of(codes, paths[i], s);
                assert(s != symbol);
                assert(begins_code_of(after, paths[i], s));
            } else {
                assert(is_prefix(paths[i], code));
                assert(begins_code_of(after, paths[i], symbol as int));
            }
        }
        assert forall|s: int, k: int| 0 <= s < after.len() && 0 < k <= after[s].len() implies self.has_path(
            #[trigger] after[s].subrange(0, k),
        ) by {
            if s != symbol {
                assert(after[s] == codes[s]);
                assert(before.has_path(codes[s].subrange(0, k)));
            } else {
                assert(before.has_path(code.subrange(0, k)));
            }
        }
        self.lemma_node_at(cur);
        assert forall|s: int| 0 <= s < after.len() && (#[trigger] after[s]).len() > 0 implies nodes[self.node_at(
            after[s],
        )].value == Some(s as u8) by {
            if s != symbol {
                assert(after[s] == codes[s]);
                assert(codes[s].subrange(0, codes[s].len() as int) =~= codes[s]);
                assert(before.has_path(codes[s]));
                let i = before.node_at(codes[s]);
                assert(0 <= i < nodes.len() && before.paths@[i] == codes[s]);
                assert(before.nodes@[i].value == Some(s as u8));
                assert(i != cur);
                self.lemma_node_at(i);
            }
        }
        assert forall|i: int| 0 <= i < nodes.len() && (#[trigger] nodes[i].value) is Some implies {
            let v = nodes[i].value.unwrap() as int;
            after[v] == paths[i] && paths[i].len() > 0
        } by {
            if i != cur {
                assert(nodes[i].value == before.nodes@[i].value);
                let v = nodes[i].value.unwrap() as int;
                assert(codes[v] == paths[i] && paths[i].len() > 0);
                assert(v != symbol);
            }
        }
        assert(self.holds(after, Seq::<bool>::empty()));
    }

    /// Where a node lacks a child, the path to that child begins no code.
    proof fn lemma_step_none(&self, cur: int, b: bool)
        requires
            self.wf(),
            0 <= cur < self.nodes@.len(),
            self.nodes@[cur].child(b) is None,
        ensures
            !begins_code(self@, self.paths@[cur].push(b)),
            !is_code(self@, self.paths@[cur].push(b)),
    {
        let codes = self.codes@;
        let p = self.paths@[cur].push(b);
        self.lemma_missing_child(cur, b);
        if begins_code(codes, p) {
            let s = choose|s: int| begins_code_of(codes, p, s);
            assert(self.has_path(codes[s].subrange(0, p.len() as int)));
        }
        if is_code(codes, p) {
            let s = choose|s: int| is_code_of(codes, p, s);
            assert(codes[s].subrange(0, p.len() as int) =~= p);
            assert(begins_code_of(codes, p, s));
        }
    }

    /// A node with a symbol stands at the end of the code of that symbol
    /// and of no other.
    proof fn lemma_step_leaf(&self, c: int, v: u8)
        requires
            self.wf(),
            0 <= c < self.nodes@.len(),
            self.nodes@[c].value == Some(v),
        ensures
            is_code(self@, self.paths@[c]),
            symbol_of(self@, self.paths@[c]) == v,
    {
        let codes = self.codes@;
        let p = self.paths@[c];
        assert(self.nodes@[c].value is Some);
        assert(is_code_of(codes, p, v as int));
        let s = choose|s: int| is_code_of(codes, p, s);
        assert(self.nodes@[self.node_at(codes[s])].value == Some(s as u8));
        self.lemma_node_at(c);
    }

    /// A node without a symbol, other than the root, stands inside a code
    /// and not at the end of one.
    proof fn lemma_step_inner(&self, c: int)
        requires
            self.wf(),
            0 < c < self.nodes@.len(),
            self.nodes@[c].value is None,
        ensures
            !is_code(self@, self.paths@[c]),
            begins_code(self@, self.paths@[c]),
    {
        let codes = self.codes@;
        let p = self.paths@[c];
        let q = self.parents@[c];
        assert(p.len() > 0);
        assert(!is_prefix(p, Seq::<bool>::empty()));
        if is_code(codes, p) {
            let s = choose|s: int| is_code_of(codes, p, s);
            assert(self.nodes@[self.node_at(codes[s])].value == Some(s as u8));
            self.lemma_node_at(c);
        }
    }
}

/// The result of decoding `count` more symbols, where the code being read
/// starts at bit `start`, `depth` of its bits have been read, and `out` has
/// been produced so far.
pub open spec fn decode_from(
    codes: Seq<Seq<bool>>,
    bits: Seq<bool>,
    start: int,
    depth: int,
    count: nat,
    out: Seq<u8>,
) -> Result<Seq<u8>, Error>
    decreases bits.len() - start - depth,
{
    if count == 0 {
        Ok(out)
    } else if start < 0 || depth < 0 || start + depth >= bits.len() {
        Err(Error::UnexpectedEof)
    } else {
        let p = bits.subrange(start, start + depth + 1);
        if is_code(codes, p) {
            decode_from(
                codes,
                bits,
                start + depth + 1,
                0,
                (count - 1) as nat,
                out.push(symbol_of(codes, p)),
            )
        } else if begins_code(codes, p) {
            decode_from(codes, bits, start, depth + 1, count, out)
        } else {
            Err(Error::MalformedHuffman)
        }
    }
}

/// The first `count` symbols that the bits from `start` on stand for.
pub open spec fn decoded(codes: Seq<Seq<bool>>, bits: Seq<bool>, start: int, count: nat) -> Result<
    Seq<u8>,
    Error,
> {
    decode_from(codes, bits, start, 0, count, Seq::empty())
}

/// Decoding gives exactly as many symbols as were asked for, after what
/// was there before.
pub proof fn lemma_decode_count(
    codes: Seq<Seq<bool>>,
    bits: Seq<bool>,
    start: int,
    depth: int,
    count: nat,
    out: Seq<u8>,
)
    requires
        decode_from(codes, bits, start, depth, count, out) is Ok,
    ensures
        decode_from(codes, bits, start, depth, count, out).unwrap().len() == out.len() + count,
        decode_from(codes, bits, start, depth, count, out).unwrap().subrange(
            0,
            out.len() as int,
        ) == out,
    decreases bits.len() - start - depth,
{
    if count == 0 {
        assert(out.subrange(0, out.len() as int) =~= out);
    } else {
        let p = bits.subrange(start, start + depth + 1);
        if is_code(codes, p) {
            let next = out.push(symbol_of(codes, p));
            lemma_decode_count(codes, bits, start + depth + 1, 0, (count - 1) as nat, next);
            let all = decode_from(codes, bits, start + depth + 1, 0, (count - 1) as nat, next).unwrap();
            assert(all.subrange(0, out.len() as int) =~= all.subrange(0, next.len() as int).subrange(
                0,
                out.len() as int,
            ));
            assert(next.subrange(0, out.len() as int) =~= out);
        } else {
            lemma_decode_count(codes, bits, start, depth + 1, count, out);
        }
    }
}

/// The code table that a list of lengths and numeric values stands for.
pub open spec fn table_of(values: Seq<(usize, u16)>) -> Seq<Seq<bool>> {
    Seq::new(SYMBOLS as nat, |s: int| code_bits(values[s].0 as int, values[s].1))
}

/// Whether some code is longer than sixteen bits.
pub open spec fn too_long(values: Seq<(usize, u16)>) -> bool {
    exists|s: int| 0 <= s < SYMBOLS && (#[trigger] values[s]).0 > MAX_CODE_LEN
}

/// The table of the first `n` entries of `values`, the other symbols
/// having no code.
spec fn table_upto(values: Seq<(usize, u16)>, n: int) -> Seq<Seq<bool>> {
    Seq::new(
        SYMBOLS as nat,
        |s: int|
            if s < n {
                code_bits(values[s].0 as int, values[s].1)
            } else {
                Seq::<bool>::empty()
            },
    )
}

/// Builds the code tree from the length and the numeric value of the code
/// of each symbol; a length of zero means that the symbol has no code.
///
/// Fails where a code is longer than sixteen bits or two symbols have the
/// same code.
pub fn create_huffman_tree(values: [(usize, u16); 256]) -> (r: Result<Tree, Error>)
    ensures
        match r {
            Ok(tree) => tree.wf() && tree@ == table_of(values@) && !too_long(values@) && !collides(
                table_of(values@),
            ),
            Err(e) => e == Error::MalformedHuffman && (too_long(values@) || collides(
                table_of(values@),
            )),
        },
{
    let mut tree = Tree::new();
    let mut s: usize = 0;
    assert(tree@ =~= table_upto(values@, 0));
    while s < SYMBOLS
        invariant
            s <= SYMBOLS,
            tree.wf(),
            tree@ == table_upto(values@, s as int),
            forall|j: int| 0 <= j < s ==> (#[trigger] values@[j]).0 <= MAX_CODE_LEN,
        decreases SYMBOLS - s,
    {
        let (length, bits) = values[s];
        let ghost code = code_bits(length as int, bits);
        let ghost before = tree@;
        if length > MAX_CODE_LEN {
            assert(values@[s as int].0 > MAX_CODE_LEN);
            return Err(Error::MalformedHuffman);
        }
        if length > 0 {
            match tree.insert(s as u8, length, bits) {
                Err(_) => {
                    proof {
                        let a = choose|a: int| is_code_of(before, code, a);
                        let table = table_of(values@);
                        assert(before[a] == code);
                        assert(a < s);
                        assert(table[a] == code);
                        assert(table[s as int] == code);
                    }
                    return Err(Error::MalformedHuffman);
                },
                Ok(()) => {
                    assert(tree@ =~= table_upto(values@, s as int + 1));
                },
            }
        } else {
            assert(code =~= Seq::<bool>::empty());
            assert(tree@ =~= table_upto(values@, s as int + 1));
        }
        s = s + 1;
    }
    proof {
        assert(tree@ =~= table_of(values@));
        tree.lemma_view();
    }
    Ok(tree)
}

/// Decodes `decompressed_size` symbols from the bits of `input` that start
/// at `pos`.
///
/// Fails with `MalformedHuffman` where the bits leave the tree, and with
/// `UnexpectedEof` where the input ends before all symbols are decoded.
pub fn huffman_decode(input: &[u8], pos: BitPos, tree: &Tree, decompressed_size: usize) -> (r:
    Result<Vec<u8>, Error>)
    requires
        tree.wf(),
        pos.wf(),
    ensures
        result_view(r) == decoded(
            tree@,
            stream_bits(input@),
            pos.index(),
            decompressed_size as nat,
        ),
        r is Ok ==> r.unwrap()@.len() == decompressed_size,
{
    let ghost bits = stream_bits(input@);
    let ghost codes = tree@;
    let mut out: Vec<u8> = Vec::new();
    let mut cur: usize = 0;
    let mut at = pos;
    let ghost mut start = pos.index();
    while out.len() < decompressed_size
        invariant
            tree.wf(),
            at.wf(),
            bits == stream_bits(input@),
            codes == tree@,
            out.len() <= decompressed_size,
            0 <= start <= at.index(),
            0 <= cur < tree.nodes@.len(),
            (cur == 0 && start == at.index()) || (start < at.index() <= bits.len()
                && tree.paths@[cur as int] == bits.subrange(start, at.index())),
            decode_from(
                codes,
                bits,
                start,
                at.index() - start,
                (decompressed_size - out.len()) as nat,
                out@,
            ) == decoded(codes, bits, pos.index(), decompressed_size as nat),
        decreases 8 * input@.len() - at.index(),
    {
        match read_bit(input, at) {
            None => {
                return Err(Error::UnexpectedEof);
            },
            Some((b, next)) => {
                let node = tree.nodes[cur];
                let child = if b {
                    node.right
                } else {
                    node.left
                };
                let ghost p = bits.subrange(start, at.index() + 1);
                proof {
                    assert(child == node.child(b));
                    assert(tree.paths@[0].len() == 0);
                    assert(p =~= tree.paths@[cur as int].push(b));
                }
                match child {
                    None => {
                        proof {
                            tree.lemma_step_none(cur as int, b);
                        }
                        return Err(Error::MalformedHuffman);
                    },
                    Some(c) => {
                        assert(tree.paths@[c as int] == p);
                        match tree.nodes[c].value {
                            Some(v) => {
                                proof {
                                    tree.lemma_step_leaf(c as int, v);
                                }
                                out.push(v);
                                cur = 0;
                                proof {
                                    start = next.index();
                                }
                            },
                            None => {
                                proof {
                                    tree.lemma_step_inner(c as int);
                                }
                                cur = c;
                            },
                        }
                    },
                }
                at = next;
            },
        }
    }
    Ok(out)
}

} // verus!
