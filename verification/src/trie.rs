use vstd::prelude::*;

verus! {

/// Number of children per node: one slot per decimal digit.
pub const SIZE: usize = 10;

/// A position in the trie: `None` where no node has been created.
pub type Vertex = Option<Box<Node>>;

/// One node of the digit trie. The node stands for the digit sequence that
/// leads to it from the root.
pub struct Node {
    /// Set when some inserted digit sequence ends exactly here.
    pub is_word_end: bool,
    /// The indexes of all words whose digit sequence ends here, in the order
    /// of their insertion.
    pub word_indexes: Vec<usize>,
    /// One slot per digit.
    pub children: [Vertex; SIZE],
}

/// The child of `v` under `digit`: `None` if `v` is no node or `digit` is no
/// decimal digit.
pub open spec fn step(v: Vertex, digit: usize) -> Vertex {
    match v {
        Some(node) => if digit < SIZE { node.children[digit as int] } else { None },
        None => None,
    }
}

/// The vertex reached from `v` by following `path` digit by digit.
pub open spec fn descend(v: Vertex, path: Seq<usize>) -> Vertex
    decreases path.len(),
{
    if path.len() == 0 {
        v
    } else {
        step(descend(v, path.drop_last()), path.last())
    }
}

/// Whether the trie under `v` has a node for `path`.
pub open spec fn has_node(v: Vertex, path: Seq<usize>) -> bool {
    descend(v, path) is Some
}

/// Whether `path` is marked in the trie under `v` as the end of a word.
pub open spec fn is_word(v: Vertex, path: Seq<usize>) -> bool {
    match descend(v, path) {
        Some(node) => node.is_word_end,
        None => false,
    }
}

/// The word indexes stored in the trie under `v` for `path`, oldest first.
pub open spec fn words_at(v: Vertex, path: Seq<usize>) -> Seq<usize> {
    match descend(v, path) {
        Some(node) => node.word_indexes@,
        None => Seq::empty(),
    }
}

/// What a search sees of the trie under `v`: the digit sequences that are
/// marked as words, each with the indexes stored for it, oldest first.
pub open spec fn lexicon(v: Vertex) -> Map<Seq<usize>, Seq<usize>> {
    Map::new(|key: Seq<usize>| is_word(v, key), |key: Seq<usize>| words_at(v, key))
}

/// `after` is `before` with `word_index` recorded under `key`: the nodes along
/// `key` exist, `key` is marked, and `word_index` is the newest index there.
/// Nothing else differs.
pub open spec fn inserted(
    before: Vertex,
    after: Vertex,
    key: Seq<usize>,
    word_index: usize,
) -> bool {
    &&& forall|path: Seq<usize>| #[trigger]
        has_node(after, path) == (has_node(before, path) || path.is_prefix_of(key))
    &&& forall|path: Seq<usize>| #[trigger]
        is_word(after, path) == (is_word(before, path) || path == key)
    &&& forall|path: Seq<usize>| #[trigger]
        words_at(after, path) == if path == key {
            words_at(before, path).push(word_index)
        } else {
            words_at(before, path)
        }
}

/// Nothing lies below a missing vertex.
pub proof fn lemma_descend_none(path: Seq<usize>)
    ensures
        descend(None, path) is None,
    decreases path.len(),
{
    if path.len() > 0 {
        lemma_descend_none(path.drop_last());
    }
}

/// Following a path is taking its first digit, then following the rest.
pub proof fn lemma_descend_front(v: Vertex, path: Seq<usize>)
    requires
        path.len() > 0,
    ensures
        descend(v, path) == descend(step(v, path.first()), path.drop_first()),
    decreases path.len(),
{
    if path.len() == 1 {
        assert(path.drop_last().len() == 0);
        assert(path.drop_first().len() == 0);
    } else {
        let front = path.drop_last();
        lemma_descend_front(v, front);
        assert(front.drop_first() =~= path.drop_first().drop_last());
        assert(front.first() == path.first());
        assert(path.drop_first().last() == path.last());
    }
}

/// A path that leaves the trie stays outside it however it goes on.
pub proof fn lemma_descend_dead_end(v: Vertex, path: Seq<usize>, n: int)
    requires
        0 <= n <= path.len(),
        descend(v, path.take(n)) is None,
    ensures
        descend(v, path) is None,
    decreases path.len() - n,
{
    if n == path.len() {
        assert(path.take(n) =~= path);
    } else {
        assert(path.drop_last().take(n) =~= path.take(n));
        lemma_descend_dead_end(v, path.drop_last(), n);
    }
}

/// The trie under `v` holds nothing: `v` is a node without mark, indexes or
/// children.
pub open spec fn is_fresh(v: Vertex) -> bool {
    &&& forall|path: Seq<usize>| #[trigger] has_node(v, path) == (path.len() == 0)
    &&& forall|path: Seq<usize>| !#[trigger] is_word(v, path)
    &&& forall|path: Seq<usize>| #[trigger] words_at(v, path) == Seq::<usize>::empty()
}

/// A node with no mark, no indexes and no children.
pub fn empty_node() -> (node: Node)
    ensures
        !node.is_word_end,
        node.word_indexes@.len() == 0,
        forall|d: int| 0 <= d < SIZE ==> node.children[d] is None,
        is_fresh(Some(Box::new(node))),
{
    let node = Node {
        is_word_end: false,
        word_indexes: Vec::new(),
        children: [None, None, None, None, None, None, None, None, None, None],
    };
    proof {
        let v: Vertex = Some(Box::new(node));
        assert forall|path: Seq<usize>|
            has_node(v, path) == (path.len() == 0) && !is_word(v, path) && words_at(v, path)
                == Seq::<usize>::empty() by {
            if path.len() > 0 {
                lemma_descend_front(v, path);
                lemma_descend_none(path.drop_first());
            } else {
                assert(words_at(v, path) =~= Seq::<usize>::empty());
            }
        }
    }
    node
}

/// Marking a node and adding an index to it is an insertion under the empty
/// key.
proof fn lemma_insert_here(before: Node, after: Node, word_index: usize)
    requires
        after.is_word_end,
        after.word_indexes@ == before.word_indexes@.push(word_index),
        after.children == before.children,
    ensures
        inserted(Some(Box::new(before)), Some(Box::new(after)), Seq::empty(), word_index),
{
    let old_v: Vertex = Some(Box::new(before));
    let new_v: Vertex = Some(Box::new(after));
    let key = Seq::<usize>::empty();
    assert forall|path: Seq<usize>|
        has_node(new_v, path) == (has_node(old_v, path) || path.is_prefix_of(key))
        && is_word(new_v, path) == (is_word(old_v, path) || path == key)
        && words_at(new_v, path) == (if path == key {
            words_at(old_v, path).push(word_index)
        } else {
            words_at(old_v, path)
        }) by {
        if path.len() == 0 {
            assert(path =~= key);
        } else {
            lemma_descend_front(old_v, path);
            lemma_descend_front(new_v, path);
            assert(step(old_v, path.first()) == step(new_v, path.first()));
        }
    }
}

/// Lifts an insertion below a child of a node to the node itself: `mid` is
/// the child under the first digit of `key` as the insertion found it, the
/// child of `before` or a new empty node in its place.
proof fn lemma_insert_below(
    before: Node,
    after: Node,
    mid: Vertex,
    key: Seq<usize>,
    word_index: usize,
)
    requires
        key.len() > 0,
        key.first() < SIZE,
        after.is_word_end == before.is_word_end,
        after.word_indexes@ == before.word_indexes@,
        forall|d: int|
            0 <= d < SIZE && d != key.first() ==> after.children[d] == before.children[d],
        mid is Some,
        before.children[key.first() as int] is Some ==> mid == before.children[key.first() as int],
        before.children[key.first() as int] is None ==> {
            &&& !mid->0.is_word_end
            &&& mid->0.word_indexes@.len() == 0
            &&& forall|d: int| 0 <= d < SIZE ==> mid->0.children[d] is None
        },
        inserted(mid, after.children[key.first() as int], key.drop_first(), word_index),
    ensures
        inserted(Some(Box::new(before)), Some(Box::new(after)), key, word_index),
{
    let old_v: Vertex = Some(Box::new(before));
    let new_v: Vertex = Some(Box::new(after));
    let digit = key.first();
    let old_child = before.children[digit as int];
    let new_child = after.children[digit as int];
    let rest_key = key.drop_first();
    assert forall|path: Seq<usize>|
        has_node(new_v, path) == (has_node(old_v, path) || path.is_prefix_of(key))
        && is_word(new_v, path) == (is_word(old_v, path) || path == key)
        && words_at(new_v, path) == (if path == key {
            words_at(old_v, path).push(word_index)
        } else {
            words_at(old_v, path)
        }) by {
        if path.len() == 0 {
            assert(path.is_prefix_of(key));
        } else {
            let rest = path.drop_first();
            lemma_descend_front(old_v, path);
            lemma_descend_front(new_v, path);
            if path.first() == digit {
                assert(step(old_v, digit) == old_child);
                assert(step(new_v, digit) == new_child);
                assert(rest.is_prefix_of(rest_key) == path.is_prefix_of(key)) by {
                    if rest.is_prefix_of(rest_key) {
                        assert forall|i: int| 0 <= i < path.len() implies path[i] == key[i] by {
                            if i > 0 {
                                assert(path[i] == rest[i - 1]);
                                assert(rest[i - 1] == rest_key.subrange(0, rest.len() as int)[i
                                    - 1]);
                            }
                        }
                        assert(path =~= key.subrange(0, path.len() as int));
                    }
                    if path.is_prefix_of(key) {
                        assert(rest =~= rest_key.subrange(0, rest.len() as int));
                    }
                }
                assert((rest == rest_key) == (path == key)) by {
                    if rest == rest_key {
                        assert(path =~= key);
                    }
                }
                assert(has_node(new_child, rest) == (has_node(mid, rest) || rest.is_prefix_of(
                    rest_key,
                )));
                assert(is_word(new_child, rest) == (is_word(mid, rest) || rest == rest_key));
                assert(words_at(new_child, rest) == (if rest == rest_key {
                    words_at(mid, rest).push(word_index)
                } else {
                    words_at(mid, rest)
                }));
                if old_child is None {
                    lemma_descend_none(rest);
                    if rest.len() > 0 {
                        lemma_descend_front(mid, rest);
                        lemma_descend_none(rest.drop_first());
                    } else {
                        assert(rest.is_prefix_of(rest_key));
                    }
                }
            } else {
                assert(step(old_v, path.first()) == step(new_v, path.first()));
            }
        }
    }
}

/// Records `word_index` under the digits `c[cur..]` below `v`, creating the
/// nodes that are missing on the way. A missing `v` is left as it is.
pub fn insert(v: &mut Vertex, word_index: usize, c: &Vec<usize>, cur: usize)
    requires
        cur <= c.len(),
        forall|i: int| cur <= i < c.len() ==> c[i] < SIZE,
    ensures
        *old(v) is None ==> *final(v) is None,
        *old(v) is Some ==> *final(v) is Some && inserted(
            *old(v),
            *final(v),
            c@.skip(cur as int),
            word_index,
        ),
    decreases c.len() - cur,
{
    match v {
        None => {},
        Some(b) => {
            let ghost before: Node = **b;
            let ghost key = c@.skip(cur as int);
            if cur == c.len() {
                b.is_word_end = true;
                b.word_indexes.push(word_index);
                proof {
                    assert(key =~= Seq::<usize>::empty());
                    lemma_insert_here(before, **b, word_index);
                }
            } else {
                let index: usize = c[cur];
                if b.children[index].is_none() {
                    b.children[index] = Some(Box::new(empty_node()));
                }
                let ghost mid = b.children[index as int];
                insert(&mut b.children[index], word_index, c, cur + 1);
                proof {
                    assert(key.drop_first() =~= c@.skip(cur + 1));
                    lemma_insert_below(before, **b, mid, key, word_index);
                }
            }
        },
    }
}

/// What a list of vectors holds: each vector as the sequence of its items.
pub open spec fn rows<T>(v: Seq<Vec<T>>) -> Seq<Seq<T>> {
    Seq::new(v.len(), |i: int| v[i]@)
}

/// The positions in `seqs` at which `key` stands, in ascending order.
pub open spec fn positions(seqs: Seq<Seq<usize>>, key: Seq<usize>) -> Seq<usize>
    decreases seqs.len(),
{
    if seqs.len() == 0 {
        Seq::empty()
    } else {
        let earlier = positions(seqs.drop_last(), key);
        if seqs.last() == key {
            earlier.push((seqs.len() - 1) as usize)
        } else {
            earlier
        }
    }
}

/// The lexicon of a dictionary given by the digit sequences of its words:
/// each sequence with the positions at which it stands.
pub open spec fn dictionary_lexicon(seqs: Seq<Seq<usize>>) -> Map<Seq<usize>, Seq<usize>> {
    Map::new(|key: Seq<usize>| seqs.contains(key), |key: Seq<usize>| positions(seqs, key))
}

/// `after` is `before` with every sequence of `seqs` recorded under its
/// position in `seqs`, in order.
pub open spec fn built(before: Vertex, after: Vertex, seqs: Seq<Seq<usize>>) -> bool {
    &&& forall|path: Seq<usize>| #[trigger]
        has_node(after, path) == (has_node(before, path) || exists|i: int|
            0 <= i < seqs.len() && path.is_prefix_of(#[trigger] seqs[i]))
    &&& forall|path: Seq<usize>| #[trigger]
        is_word(after, path) == (is_word(before, path) || seqs.contains(path))
    &&& forall|path: Seq<usize>| #[trigger]
        words_at(after, path) == words_at(before, path) + positions(seqs, path)
}

/// Without a sequence nothing changes.
proof fn lemma_built_nothing(v: Vertex)
    ensures
        built(v, v, Seq::empty()),
{
    assert forall|path: Seq<usize>|
        words_at(v, path) == words_at(v, path) + positions(Seq::empty(), path) by {
        assert(words_at(v, path) + Seq::<usize>::empty() =~= words_at(v, path));
    }
}

/// One more insertion extends what has been built by one sequence.
proof fn lemma_built_step(before: Vertex, mid: Vertex, after: Vertex, seqs: Seq<Seq<usize>>)
    requires
        seqs.len() > 0,
        seqs.len() - 1 <= usize::MAX,
        built(before, mid, seqs.drop_last()),
        inserted(mid, after, seqs.last(), (seqs.len() - 1) as usize),
    ensures
        built(before, after, seqs),
{
    let earlier = seqs.drop_last();
    let key = seqs.last();
    let n = (seqs.len() - 1) as usize;
    assert forall|path: Seq<usize>|
        has_node(after, path) == (has_node(before, path) || exists|i: int|
            0 <= i < seqs.len() && path.is_prefix_of(#[trigger] seqs[i])) by {
        assert(has_node(after, path) == (has_node(mid, path) || path.is_prefix_of(key)));
        assert(has_node(mid, path) == (has_node(before, path) || exists|i: int|
            0 <= i < earlier.len() && path.is_prefix_of(#[trigger] earlier[i])));
        if exists|i: int| 0 <= i < earlier.len() && path.is_prefix_of(#[trigger] earlier[i]) {
            let i = choose|i: int|
                0 <= i < earlier.len() && path.is_prefix_of(#[trigger] earlier[i]);
            assert(path.is_prefix_of(seqs[i]));
        }
        if path.is_prefix_of(key) {
            assert(path.is_prefix_of(seqs[seqs.len() - 1]));
        }
        if exists|i: int| 0 <= i < seqs.len() && path.is_prefix_of(#[trigger] seqs[i]) {
            let i = choose|i: int| 0 <= i < seqs.len() && path.is_prefix_of(#[trigger] seqs[i]);
            if i < earlier.len() {
                assert(path.is_prefix_of(earlier[i]));
            }
        }
    }
    assert forall|path: Seq<usize>|
        is_word(after, path) == (is_word(before, path) || seqs.contains(path)) by {
        assert(is_word(after, path) == (is_word(mid, path) || path == key));
        assert(is_word(mid, path) == (is_word(before, path) || earlier.contains(path)));
        if earlier.contains(path) {
            let i = choose|i: int| 0 <= i < earlier.len() && earlier[i] == path;
            assert(seqs[i] == path);
        }
        if path == key {
            assert(seqs[seqs.len() - 1] == path);
        }
        if seqs.contains(path) {
            let i = choose|i: int| 0 <= i < seqs.len() && seqs[i] == path;
            if i < earlier.len() {
                assert(earlier[i] == path);
            }
        }
    }
    assert forall|path: Seq<usize>|
        words_at(after, path) == words_at(before, path) + positions(seqs, path) by {
        assert(words_at(after, path) == (if path == key {
            words_at(mid, path).push(n)
        } else {
            words_at(mid, path)
        }));
        assert(words_at(mid, path) == words_at(before, path) + positions(earlier, path));
        if path == key {
            assert((words_at(before, path) + positions(earlier, path)).push(n) =~= words_at(
                before,
                path,
            ) + positions(earlier, path).push(n));
        }
    }
}

/// Records each sequence of `d` under its position in `d`, first to last.
/// A missing `root` is left as it is.
pub fn build(root: &mut Vertex, d: &Vec<Vec<usize>>)
    requires
        forall|i: int, j: int| 0 <= i < d.len() && 0 <= j < d[i].len() ==> d[i][j] < SIZE,
    ensures
        *old(root) is None ==> *final(root) is None,
        *old(root) is Some ==> *final(root) is Some && built(*old(root), *final(root), rows(d@)),
{
    let ghost seqs = rows(d@);
    proof {
        if *root is Some {
            lemma_built_nothing(*root);
        }
    }
    for i in 0..d.len()
        invariant
            seqs == rows(d@),
            forall|i: int, j: int| 0 <= i < d.len() && 0 <= j < d[i].len() ==> d[i][j] < SIZE,
            *old(root) is None ==> *root is None,
            *old(root) is Some ==> *root is Some && built(*old(root), *root, seqs.take(i as int)),
    {
        let ghost mid = *root;
        insert(root, i, &d[i], 0);
        proof {
            let upto = seqs.take(i + 1);
            assert(upto.drop_last() =~= seqs.take(i as int));
            assert(upto.last() == d[i as int]@);
            assert(d[i as int]@.skip(0) =~= d[i as int]@);
            if mid is Some {
                lemma_built_step(*old(root), mid, *root, upto);
            }
        }
    }
    proof {
        assert(seqs.take(d.len() as int) =~= seqs);
    }
}

} // verus!
