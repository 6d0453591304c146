//! The body of an abstraction with higher-order applications spliced in:
//! an occurrence of `?#k` whose list of de Bruijn indices `vis` is not empty
//! becomes `(@ … (@ ?#k $vis[h-1]) … $vis[0])`.
use vstd::prelude::*;
use rustc_hash::FxHashMap;
use crate::fxmap::{slot_get, slot_insert};
use crate::lang::{
    children_after, children_before, nodes_view, Op, PatternNode, PatternOp, SpecNode, SpecOp,
    SpecPatternOp,
};
use crate::pattern::{var_of, Pattern};
use crate::render::{push_render_before, render_after, render_tree, lemma_render_before_tree};
use crate::tree::{lemma_tree_before_kids, lemma_tree_before_prefix, no_tree, tree_before, Tree};

verus! {

/// The tree applied, in order, to the de Bruijn variables `args`: each
/// application wraps the previous result.
pub open spec fn apply_db_args(t: Tree, args: Seq<i32>) -> Tree
    decreases args.len(),
{
    if args.len() == 0 {
        t
    } else {
        Tree {
            op: SpecPatternOp::Node(SpecOp::App),
            kids: seq![
                apply_db_args(t, args.drop_last()),
                Tree { op: SpecPatternOp::Node(SpecOp::DbVar(args.last())), kids: Seq::empty() },
            ],
        }
    }
}

/// The lists of a slice of index vectors.
pub open spec fn index_lists(v: Seq<Vec<i32>>) -> Seq<Seq<i32>> {
    v.map_values(|l: Vec<i32>| l@)
}

/// The tree of the node at `id` of a pattern with every occurrence of `?#k`
/// applied to the reversed indices `vis[k]`.
pub open spec fn ho_tree(nodes: Seq<SpecNode>, id: int, vis: Seq<Seq<i32>>) -> Tree
    decreases nodes.len() - id, nodes[id].children.len() + 1,
{
    if 0 <= id < nodes.len() {
        let base = Tree { op: nodes[id].op, kids: ho_kids(nodes, id, nodes[id].children.len() as int, vis) };
        match var_of(nodes[id]) {
            Some(k) => if k < vis.len() {
                apply_db_args(base, vis[k as int].reverse())
            } else {
                base
            },
            None => base,
        }
    } else {
        no_tree()
    }
}

/// The trees of the first `j` children of the node at `id`.
pub open spec fn ho_kids(nodes: Seq<SpecNode>, id: int, j: int, vis: Seq<Seq<i32>>) -> Seq<Tree>
    decreases nodes.len() - id, j,
{
    if 0 <= id < nodes.len() && 0 < j <= nodes[id].children.len() {
        let c = nodes[id].children[j - 1] as int;
        ho_kids(nodes, id, j - 1, vis).push(
            if id < c < nodes.len() {
                ho_tree(nodes, c, vis)
            } else {
                no_tree()
            },
        )
    } else {
        Seq::empty()
    }
}

proof fn lemma_ho_kids(nodes: Seq<SpecNode>, id: int, j: int, vis: Seq<Seq<i32>>)
    requires
        children_after(nodes),
        0 <= id < nodes.len(),
        0 <= j <= nodes[id].children.len(),
    ensures
        ho_kids(nodes, id, j, vis).len() == j,
        forall|i: int|
            0 <= i < j ==> #[trigger] ho_kids(nodes, id, j, vis)[i] == ho_tree(
                nodes,
                nodes[id].children[i] as int,
                vis,
            ),
    decreases j,
{
    if j > 0 {
        lemma_ho_kids(nodes, id, j - 1, vis);
        assert(id < nodes[id].children[j - 1]);
    }
}

/// Applies the node at `id` of `out` to the de Bruijn variables `db_args`
/// in order, appending a leaf and an application for each; returns the
/// outermost application.
fn wrap_pattern_with_db_apps(out: &mut Vec<PatternNode>, id: usize, db_args: &Vec<i32>) -> (r: usize)
    requires
        children_before(nodes_view(old(out)@)),
        id < old(out).len(),
    ensures
        children_before(nodes_view(final(out)@)),
        final(out).len() >= old(out).len(),
        nodes_view(final(out)@).subrange(0, old(out).len() as int) == nodes_view(old(out)@),
        r < final(out).len(),
        db_args.len() > 0 ==> r == final(out).len() - 1,
        db_args.len() == 0 ==> r == id,
        tree_before(nodes_view(final(out)@), r as int) == apply_db_args(
            tree_before(nodes_view(old(out)@), id as int),
            db_args@,
        ),
{
    let ghost out0 = nodes_view(out@);
    let ghost t = tree_before(out0, id as int);
    let mut cur = id;
    let mut j: usize = 0;
    assert(db_args@.subrange(0, 0) =~= Seq::<i32>::empty());
    while j < db_args.len()
        invariant
            j <= db_args.len(),
            children_before(nodes_view(out@)),
            out.len() >= out0.len(),
            nodes_view(out@).subrange(0, out0.len() as int) == out0,
            cur < out.len(),
            j > 0 ==> cur == out.len() - 1,
            j == 0 ==> cur == id,
            t == tree_before(out0, id as int),
            tree_before(nodes_view(out@), cur as int) == apply_db_args(t, db_args@.subrange(0, j as int)),
        decreases db_args.len() - j,
    {
        let ghost v1 = nodes_view(out@);
        let leaf = PatternNode { op: PatternOp::Node(Op::DbVar(db_args[j])), children: Vec::new() };
        out.push(leaf);
        let leaf_id = out.len() - 1;
        let mut kids: Vec<usize> = Vec::new();
        kids.push(cur);
        kids.push(leaf_id);
        let app = PatternNode { op: PatternOp::Node(Op::App), children: kids };
        out.push(app);
        let app_id = out.len() - 1;
        proof {
            let v3 = nodes_view(out@);
            let leaf_node = SpecNode { op: SpecPatternOp::Node(SpecOp::DbVar(db_args@[j as int])), children: Seq::empty() };
            assert(leaf@.children =~= Seq::<usize>::empty());
            assert(v3 =~= v1.push(leaf_node).push(app@));
            assert(v3.subrange(0, v1.len() as int) =~= v1);
            assert(v3.subrange(0, out0.len() as int) =~= out0) by {
                assert(v3.subrange(0, out0.len() as int) =~= v3.subrange(0, v1.len() as int).subrange(0, out0.len() as int));
            }
            assert forall|a: int, b: int|
                0 <= a < v3.len() && 0 <= b < v3[a].children.len() implies 0 <= #[trigger] v3[a].children[b] < a by {
                if a < v1.len() {
                    assert(v3[a] == v1[a]);
                }
            }
            lemma_tree_before_prefix(v1, v3, cur as int);
            lemma_tree_before_kids(v3, leaf_id as int, 0);
            assert(tree_before(v3, leaf_id as int).kids =~= Seq::<Tree>::empty());
            lemma_tree_before_kids(v3, app_id as int, 2);
            let sub = db_args@.subrange(0, j + 1);
            assert(sub.drop_last() =~= db_args@.subrange(0, j as int));
            assert(tree_before(v3, app_id as int).kids =~= apply_db_args(t, sub).kids);
        }
        cur = app_id;
        j = j + 1;
    }
    assert(db_args@.subrange(0, j as int) =~= db_args@);
    cur
}

/// The indices of `vis` in reverse order.
fn reversed(vis: &Vec<i32>) -> (r: Vec<i32>)
    ensures
        r@ == vis@.reverse(),
{
    let mut r: Vec<i32> = Vec::new();
    let mut i: usize = vis.len();
    while i > 0
        invariant
            i <= vis.len(),
            r@ == vis@.subrange(i as int, vis.len() as int).reverse(),
        decreases i,
    {
        i = i - 1;
        r.push(vis[i]);
        assert(r@ =~= vis@.subrange(i as int, vis.len() as int).reverse());
    }
    assert(vis@.subrange(0, vis.len() as int) =~= vis@);
    r
}

impl Pattern {
    /// The map from each variable position to its variable.
    fn positions_to_vars(&self) -> (m: FxHashMap<usize, usize>)
        requires
            self@.wf(),
        ensures
            forall|i: int|
                0 <= i < self@.nodes.len() ==> (m@.contains_key(i as usize) <==> var_of(
                    #[trigger] self@.nodes[i],
                ) is Some),
            forall|key: usize|
                #[trigger] m@.contains_key(key) ==> key < self@.nodes.len() && m@[key] < self@.vars.len() && var_of(self@.nodes[key as int])
                    == Some(m@[key] as u32),
    {
        let ghost p = self@;
        let mut pos_to_k: FxHashMap<usize, usize> = FxHashMap::default();
        let mut k: usize = 0;
        while k < self.vars.len()
            invariant
                p == self@,
                p.wf(),
                k <= self.vars.len(),
                forall|key: usize|
                    #[trigger] pos_to_k@.contains_key(key) ==> key < p.nodes.len() && pos_to_k@[key] < p.vars.len() && var_of(p.nodes[key as int])
                        == Some(pos_to_k@[key] as u32),
                forall|kk: int, mm: int|
                    0 <= kk < k && 0 <= mm < p.vars[kk].len() ==> pos_to_k@.contains_key(#[trigger] p.vars[kk][mm]),
            decreases self.vars.len() - k,
        {
            let ids = &self.vars[k];
            assert(ids@ == p.vars[k as int]);
            let mut m: usize = 0;
            while m < ids.len()
                invariant
                    p == self@,
                    p.wf(),
                    k < self.vars.len(),
                    ids@ == p.vars[k as int],
                    m <= ids.len(),
                    forall|key: usize|
                        #[trigger] pos_to_k@.contains_key(key) ==> key < p.nodes.len() && pos_to_k@[key] < p.vars.len() && var_of(p.nodes[key as int])
                            == Some(pos_to_k@[key] as u32),
                    forall|kk: int, mm: int|
                        0 <= kk < k && 0 <= mm < p.vars[kk].len() ==> pos_to_k@.contains_key(#[trigger] p.vars[kk][mm]),
                    forall|mm: int| 0 <= mm < m ==> pos_to_k@.contains_key(#[trigger] p.vars[k as int][mm]),
                decreases ids.len() - m,
            {
                let id = ids[m];
                assert(p.vars[k as int][m as int] == id);
                assert(p.nodes[id as int] == crate::lang::var_leaf(k as u32));
                slot_insert(&mut pos_to_k, id, k);
                m = m + 1;
            }
            k = k + 1;
        }
        proof {
            assert forall|i: int| 0 <= i < p.nodes.len() implies (pos_to_k@.contains_key(i as usize) <==> var_of(
                #[trigger] p.nodes[i],
            ) is Some) by {
                if var_of(p.nodes[i]) is Some {
                    let kk = var_of(p.nodes[i])->0 as int;
                    assert(p.vars[kk].contains(i as usize));
                    let mm = choose|mm: int| 0 <= mm < p.vars[kk].len() && p.vars[kk][mm] == i as usize;
                    assert(pos_to_k@.contains_key(p.vars[kk][mm]));
                }
            }
        }
        pos_to_k
    }

    /// Builds the abstraction body with higher-order applications spliced
    /// in: each occurrence of `?#k` with non-empty `variable_indices[k]` is
    /// wrapped as `(@ … (@ ?#k $vis[h-1]) … $vis[0])`; other positions
    /// copy through. The result is in term order with the root last.
    pub fn build_with_ho(&self, variable_indices: &[Vec<i32>]) -> (out: Vec<PatternNode>)
        requires
            self@.wf(),
            variable_indices.len() >= self.vars.len(),
        ensures
            out.len() >= 1,
            (forall|k: int| 0 <= k < variable_indices.len() ==> (#[trigger] variable_indices@[k])@.len() == 0)
                ==> out.len() == self.pattern.nodes.len(),
            children_before(nodes_view(out@)),
            tree_before(nodes_view(out@), out.len() - 1) == ho_tree(
                self@.nodes,
                0,
                index_lists(variable_indices@),
            ),
    {
        let ghost p = self@;
        let ghost vis = index_lists(variable_indices@);
        let ghost all_empty = forall|k: int|
            0 <= k < variable_indices.len() ==> (#[trigger] variable_indices@[k])@.len() == 0;
        let pos_to_k = self.positions_to_vars();
        let nodes = &self.pattern.nodes;
        let len = nodes.len();
        let mut out: Vec<PatternNode> = Vec::new();
        let mut id_map: Vec<usize> = Vec::new();
        let mut x: usize = 0;
        while x < len
            invariant
                x <= len,
                id_map.len() == x,
            decreases len - x,
        {
            id_map.push(0);
            x = x + 1;
        }
        let mut i: usize = len;
        while i > 0
            invariant
                p == self@,
                p.wf(),
                nodes == &self.pattern.nodes,
                len == nodes.len(),
                vis == index_lists(variable_indices@),
                variable_indices.len() >= self.vars.len(),
                i <= len,
                id_map.len() == len,
                all_empty == forall|k: int|
                    0 <= k < variable_indices.len() ==> (#[trigger] variable_indices@[k])@.len() == 0,
                all_empty ==> out.len() == len - i,
                children_before(nodes_view(out@)),
                forall|q: int|
                    0 <= q < p.nodes.len() ==> (pos_to_k@.contains_key(q as usize) <==> var_of(
                        #[trigger] p.nodes[q],
                    ) is Some),
                forall|key: usize|
                    #[trigger] pos_to_k@.contains_key(key) ==> key < p.nodes.len() && pos_to_k@[key] < p.vars.len() && var_of(p.nodes[key as int])
                        == Some(pos_to_k@[key] as u32),
                forall|q: int|
                    i <= q < len ==> #[trigger] id_map@[q] < out.len() && tree_before(
                        nodes_view(out@),
                        id_map@[q] as int,
                    ) == ho_tree(p.nodes, q, vis),
                i < len ==> id_map@[i as int] == out.len() - 1,
            decreases i,
        {
            i = i - 1;
            let node = &nodes[i];
            assert(node@ == p.nodes[i as int]);
            let k = node.children.len();
            let ghost out0 = nodes_view(out@);
            let mut new_children: Vec<usize> = Vec::new();
            let mut j: usize = 0;
            while j < k
                invariant
                    p.wf(),
                    len == p.nodes.len(),
                    i < len,
                    node@ == p.nodes[i as int],
                    k == node.children.len(),
                    j <= k,
                    id_map.len() == len,
                    out0 == nodes_view(out@),
                    forall|q: int|
                        i < q < len ==> #[trigger] id_map@[q] < out.len() && tree_before(
                            nodes_view(out@),
                            id_map@[q] as int,
                        ) == ho_tree(p.nodes, q, vis),
                    new_children.len() == j,
                    forall|s: int|
                        0 <= s < j ==> #[trigger] new_children@[s] == id_map@[node.children@[s] as int],
                decreases k - j,
            {
                let c = node.children[j];
                assert(i < p.nodes[i as int].children[j as int] < len);
                new_children.push(id_map[c]);
                j = j + 1;
            }
            let new_node = PatternNode { op: node.op.duplicate(), children: new_children };
            out.push(new_node);
            let mut new_id = out.len() - 1;
            proof {
                let v1 = nodes_view(out@);
                assert(v1 =~= out0.push(new_node@));
                assert(v1.subrange(0, out0.len() as int) =~= out0);
                assert forall|a: int, b: int|
                    0 <= a < v1.len() && 0 <= b < v1[a].children.len() implies 0 <= #[trigger] v1[a].children[b] < a by {
                    if a < out0.len() {
                        assert(v1[a] == out0[a]);
                    } else {
                        let c = node.children@[b];
                        assert(i < p.nodes[i as int].children[b] < len);
                        assert(v1[a].children[b] == id_map@[c as int]);
                    }
                }
                lemma_tree_before_kids(v1, new_id as int, k as int);
                lemma_ho_kids(p.nodes, i as int, k as int, vis);
                assert forall|s: int| 0 <= s < k implies tree_before(v1, new_children@[s] as int) == ho_tree(
                    p.nodes,
                    node.children@[s] as int,
                    vis,
                ) by {
                    let c = node.children@[s] as int;
                    assert(i < p.nodes[i as int].children[s] < len);
                    lemma_tree_before_prefix(out0, v1, id_map@[c] as int);
                }
                assert(tree_before(v1, new_id as int).kids =~= ho_kids(p.nodes, i as int, k as int, vis));
                assert forall|q: int| i < q < len implies #[trigger] id_map@[q] < out.len() && tree_before(
                    v1,
                    id_map@[q] as int,
                ) == ho_tree(p.nodes, q, vis) by {
                    lemma_tree_before_prefix(out0, v1, id_map@[q] as int);
                }
            }
            let ghost base_tree = tree_before(nodes_view(out@), new_id as int);
            match slot_get(&pos_to_k, i) {
                Some(kv) => {
                    assert(var_of(p.nodes[i as int]) == Some(kv as u32));
                    assert(kv < p.vars.len());
                    if !variable_indices[kv].is_empty() {
                        assert(!all_empty);
                        let db_args = reversed(&variable_indices[kv]);
                        let ghost v1 = nodes_view(out@);
                        new_id = wrap_pattern_with_db_apps(&mut out, new_id, &db_args);
                        proof {
                            assert(vis[kv as int] == variable_indices@[kv as int]@);
                            assert forall|q: int| i < q < len implies #[trigger] id_map@[q] < out.len() && tree_before(
                                nodes_view(out@),
                                id_map@[q] as int,
                            ) == ho_tree(p.nodes, q, vis) by {
                                lemma_tree_before_prefix(v1, nodes_view(out@), id_map@[q] as int);
                            }
                        }
                    } else {
                        proof {
                            assert(vis[kv as int] == variable_indices@[kv as int]@);
                            assert(vis[kv as int].reverse() =~= Seq::<i32>::empty());
                        }
                    }
                },
                None => {
                    assert(var_of(p.nodes[i as int]) is None);
                },
            }
            id_map.set(i, new_id);
        }
        assert(id_map@[0] == out.len() - 1);
        out
    }

    /// The string form of [`Pattern::build_with_ho`]; with nothing to wrap,
    /// the pattern's own string.
    pub fn display_with_ho(&self, variable_indices: &[Vec<i32>]) -> (s: String)
        requires
            self@.wf(),
            variable_indices.len() >= self.vars.len() || forall|k: int|
                0 <= k < variable_indices.len() ==> (#[trigger] variable_indices@[k])@.len() == 0,
        ensures
            (forall|k: int| 0 <= k < variable_indices.len() ==> (#[trigger] variable_indices@[k])@.len() == 0)
                ==> s@ == render_after(self@.nodes, 0),
            !(forall|k: int| 0 <= k < variable_indices.len() ==> (#[trigger] variable_indices@[k])@.len() == 0)
                ==> s@ == render_tree(ho_tree(self@.nodes, 0, index_lists(variable_indices@))),
    {
        let mut all_empty = true;
        let mut k: usize = 0;
        while k < variable_indices.len()
            invariant
                k <= variable_indices.len(),
                all_empty == forall|i: int| 0 <= i < k ==> (#[trigger] variable_indices@[i])@.len() == 0,
            decreases variable_indices.len() - k,
        {
            if !variable_indices[k].is_empty() {
                all_empty = false;
            }
            k = k + 1;
        }
        if all_empty {
            return self.to_string();
        }
        let out = self.build_with_ho(variable_indices);
        let mut s = String::new();
        push_render_before(&mut s, &out, out.len() - 1);
        proof {
            lemma_render_before_tree(nodes_view(out@), out.len() - 1);
        }
        s
    }
}

} // verus!
