use vstd::prelude::*;

verus! {

/// An n-ary tree node.  Each node carries an integer identity; all structure
/// the traversal ever reads (first child, next sibling, parent) is determined
/// by the `children` vectors.
pub struct SyntaxTree {
    pub id: usize,
    pub children: Vec<SyntaxTree>,
}

/// Number of nodes in the tree, the root included.
pub open spec fn count(t: SyntaxTree) -> nat
    decreases t,
{
    1 + count_seq(t.children@)
}

/// Number of nodes in a forest (a sequence of sibling subtrees).
pub open spec fn count_seq(ts: Seq<SyntaxTree>) -> nat
    decreases ts,
{
    if ts.len() == 0 {
        0
    } else {
        count(ts[0]) + count_seq(ts.skip(1))
    }
}

/// A path addresses a node: at each level it picks the index of the child to
/// descend into.  The empty path addresses the root.
pub open spec fn valid_path(t: SyntaxTree, p: Seq<usize>) -> bool
    decreases p.len(),
{
    p.len() == 0 || ((p[0] as int) < t.children@.len() && valid_path(
        t.children@[p[0] as int],
        p.skip(1),
    ))
}

/// The subtree rooted at the node a path addresses.
pub open spec fn subtree(t: SyntaxTree, p: Seq<usize>) -> SyntaxTree
    decreases p.len(),
{
    if p.len() == 0 {
        t
    } else {
        subtree(t.children@[p[0] as int], p.skip(1))
    }
}

/// Extending a path by one step is valid exactly when the path is valid and
/// the new index is in range at the addressed node.
pub proof fn lemma_valid_snoc(t: SyntaxTree, q: Seq<usize>, j: usize)
    ensures
        valid_path(t, q.push(j)) <==> (valid_path(t, q) && (j as int) < subtree(
            t,
            q,
        ).children@.len()),
    decreases q.len(),
{
    if q.len() == 0 {
        assert(q.push(j)[0] == j);
        assert(q.push(j).skip(1) =~= Seq::<usize>::empty());
        if (j as int) < t.children@.len() {
            assert(valid_path(t.children@[j as int], q.push(j).skip(1)));
        }
    } else {
        assert(q.push(j)[0] == q[0]);
        assert(q.push(j).skip(1) =~= q.skip(1).push(j));
        if (q[0] as int) < t.children@.len() {
            lemma_valid_snoc(t.children@[q[0] as int], q.skip(1), j);
        }
    }
}

/// The node addressed by an extended path is the chosen child of the node
/// addressed by the shorter path.
pub proof fn lemma_subtree_snoc(t: SyntaxTree, q: Seq<usize>, j: usize)
    requires
        valid_path(t, q),
        (j as int) < subtree(t, q).children@.len(),
    ensures
        subtree(t, q.push(j)) == subtree(t, q).children@[j as int],
    decreases q.len(),
{
    if q.len() == 0 {
        assert(q.push(j)[0] == j);
        assert(q.push(j).skip(1) =~= Seq::<usize>::empty());
        assert(subtree(t.children@[j as int], q.push(j).skip(1)) == t.children@[j as int]);
    } else {
        assert(q.push(j)[0] == q[0]);
        assert(q.push(j).skip(1) =~= q.skip(1).push(j));
        lemma_subtree_snoc(t.children@[q[0] as int], q.skip(1), j);
    }
}

/// Every prefix of a valid path is valid.
pub proof fn lemma_valid_prefix(t: SyntaxTree, p: Seq<usize>, n: int)
    requires
        valid_path(t, p),
        0 <= n <= p.len(),
    ensures
        valid_path(t, p.take(n)),
    decreases p.len(),
{
    if n == 0 {
        assert(p.take(0).len() == 0);
    } else {
        assert(p.take(n)[0] == p[0]);
        assert(p.take(n).skip(1) =~= p.skip(1).take(n - 1));
        lemma_valid_prefix(t.children@[p[0] as int], p.skip(1), n - 1);
    }
}

/// A nonempty valid path picks, at its last step, a child index in range at
/// its parent node.
pub proof fn lemma_valid_last(t: SyntaxTree, p: Seq<usize>)
    requires
        valid_path(t, p),
        p.len() > 0,
    ensures
        valid_path(t, p.drop_last()),
        (p.last() as int) < subtree(t, p.drop_last()).children@.len(),
        subtree(t, p) == subtree(t, p.drop_last()).children@[p.last() as int],
{
    assert(p =~= p.drop_last().push(p.last()));
    lemma_valid_prefix(t, p, p.len() - 1);
    assert(p.take(p.len() - 1) =~= p.drop_last());
    lemma_valid_snoc(t, p.drop_last(), p.last());
    lemma_subtree_snoc(t, p.drop_last(), p.last());
}

/// A child subtree holds strictly fewer nodes than its parent.
pub proof fn lemma_count_child(t: SyntaxTree, i: int)
    requires
        0 <= i < t.children@.len(),
    ensures
        count(t.children@[i]) < count(t),
    decreases t.children@.len() - i,
{
    lemma_count_seq_elem(t.children@, i);
}

/// Each element of a forest contributes at most the forest's node count.
pub proof fn lemma_count_seq_elem(ts: Seq<SyntaxTree>, i: int)
    requires
        0 <= i < ts.len(),
    ensures
        count(ts[i]) <= count_seq(ts),
    decreases i,
{
    if i == 0 {
    } else {
        lemma_count_seq_elem(ts.skip(1), i - 1);
        assert(ts.skip(1)[i - 1] == ts[i]);
    }
}

/// A single movable position within one tree, held as the path from the root
/// down to the current node.
pub struct Cursor<'a> {
    pub tree: &'a SyntaxTree,
    pub path: Vec<usize>,
}

/// The node addressed by the first `n` steps of a path.
fn node_at_prefix<'t>(t: &'t SyntaxTree, path: &Vec<usize>, n: usize) -> (r: &'t SyntaxTree)
    requires
        n <= path@.len(),
        valid_path(*t, path@.take(n as int)),
    ensures
        *r == subtree(*t, path@.take(n as int)),
{
    let mut cur: &SyntaxTree = t;
    let mut i: usize = 0;
    proof {
        assert(path@.take(n as int).skip(0) =~= path@.take(n as int));
    }
    while i < n
        invariant
            i <= n,
            n <= path@.len(),
            valid_path(*t, path@.take(n as int)),
            valid_path(*cur, path@.take(n as int).skip(i as int)),
            subtree(*cur, path@.take(n as int).skip(i as int)) == subtree(
                *t,
                path@.take(n as int),
            ),
        decreases n - i,
    {
        proof {
            assert(path@.take(n as int).skip(i as int)[0] == path@[i as int]);
            assert(path@.take(n as int).skip(i as int).skip(1) =~= path@.take(n as int).skip(
                i as int + 1,
            ));
        }
        let j = path[i];
        cur = &cur.children[j];
        i = i + 1;
    }
    proof {
        assert(path@.take(n as int).skip(n as int) =~= Seq::<usize>::empty());
    }
    cur
}

impl<'a> Cursor<'a> {
    /// The cursor points at a node that really exists in its tree.
    pub open spec fn valid(self) -> bool {
        valid_path(*self.tree, self.path@)
    }

    /// Identity of the node the cursor stands on.
    pub fn node(&self) -> (id: usize)
        requires
            self.valid(),
        ensures
            id == subtree(*self.tree, self.path@).id,
    {
        proof {
            assert(self.path@.take(self.path@.len() as int) =~= self.path@);
        }
        node_at_prefix(self.tree, &self.path, self.path.len()).id
    }

    /// Move to the first child of the current node; `false` (and no move)
    /// when the node has no children.
    pub fn goto_first_child(&mut self) -> (moved: bool)
        requires
            old(self).valid(),
        ensures
            final(self).tree == old(self).tree,
            moved == (subtree(*old(self).tree, old(self).path@).children@.len() > 0),
            moved ==> final(self).path@ == old(self).path@.push(0) && final(self).valid(),
            !moved ==> final(self).path@ == old(self).path@,
    {
        proof {
            assert(self.path@.take(self.path@.len() as int) =~= self.path@);
        }
        let here = node_at_prefix(self.tree, &self.path, self.path.len());
        if here.children.len() > 0 {
            self.path.push(0);
            proof {
                lemma_valid_snoc(*self.tree, old(self).path@, 0);
            }
            true
        } else {
            false
        }
    }

    /// Move to the next sibling of the current node; `false` (and no move)
    /// when the node is its parent's last child, or is the root.
    pub fn goto_next_sibling(&mut self) -> (moved: bool)
        requires
            old(self).valid(),
        ensures
            final(self).tree == old(self).tree,
            moved == (old(self).path@.len() > 0 && old(self).path@.last() as int + 1 < subtree(
                *old(self).tree,
                old(self).path@.drop_last(),
            ).children@.len()),
            moved ==> final(self).path@ == old(self).path@.drop_last().push(
                (old(self).path@.last() + 1) as usize,
            ) && final(self).valid(),
            moved ==> old(self).path@.last() as int + 1 <= usize::MAX as int,
            !moved ==> final(self).path@ == old(self).path@,
    {
        if self.path.len() == 0 {
            return false;
        }
        let depth = self.path.len() - 1;
        proof {
            assert(self.path@.take(depth as int) =~= self.path@.drop_last());
            lemma_valid_prefix(*self.tree, self.path@, depth as int);
            lemma_valid_last(*self.tree, self.path@);
        }
        let parent = node_at_prefix(self.tree, &self.path, depth);
        let j = self.path[depth];
        proof {
            assert(j == self.path@.last());
            assert((j as int) < parent.children@.len());
        }
        if j < parent.children.len() - 1 {
            self.path.pop();
            self.path.push(j + 1);
            proof {
                lemma_valid_snoc(*self.tree, old(self).path@.drop_last(), (j + 1) as usize);
            }
            true
        } else {
            false
        }
    }

    /// Move to the parent of the current node; `false` (and no move) when the
    /// cursor is already on the root.
    pub fn goto_parent(&mut self) -> (moved: bool)
        requires
            old(self).valid(),
        ensures
            final(self).tree == old(self).tree,
            moved == (old(self).path@.len() > 0),
            moved ==> final(self).path@ == old(self).path@.drop_last() && final(self).valid(),
            !moved ==> final(self).path@ == old(self).path@,
    {
        if self.path.len() > 0 {
            proof {
                lemma_valid_prefix(*self.tree, self.path@, self.path@.len() - 1);
                assert(self.path@.take(self.path@.len() - 1) =~= self.path@.drop_last());
            }
            self.path.pop();
            true
        } else {
            false
        }
    }
}

impl SyntaxTree {
    /// A cursor standing on the root of this tree.
    pub fn walk<'a>(&'a self) -> (c: Cursor<'a>)
        ensures
            c.tree == self,
            c.path@ == Seq::<usize>::empty(),
            c.valid(),
    {
        let c = Cursor { tree: self, path: Vec::new() };
        proof {
            assert(c.path@ =~= Seq::<usize>::empty());
        }
        c
    }
}

} // verus!
