//! What training does to what a name model accepts.

use crate::generators::names::{
    accepts, empty_layers, find_label, is_walk, joined, learn_char, learn_name, learn_names,
    learn_prefix, lemma_found_label, lemma_longest_bounds, longest, spelled, trained, with_edge, Model,
    Training, END, START,
};
use vstd::prelude::*;

verus! {

/// Whether `after` has every node and edge of `before`.
#[verifier::opaque]
pub open spec fn extends(before: Model, after: Model) -> bool {
    &&& before.labels.len() <= after.labels.len()
    &&& forall|n: int| 0 <= n < before.labels.len() ==> #[trigger] after.labels[n] == before.labels[n]
    &&& forall|e: (usize, usize)| #[trigger] before.edges.contains(e) ==> after.edges.contains(e)
}

/// Whether the two ends exist and every node of every layer exists.
pub open spec fn fit(t: Training) -> bool {
    &&& t.model.labels.len() >= 2
    &&& forall|i: int, j: int|
        0 <= i < t.layers.len() && 0 <= j < t.layers[i].len() ==> (#[trigger] t.layers[i][j])
            < t.model.labels.len()
}

/// The nodes that learning the first `k` characters of `name` passes.
pub open spec fn prefix_nodes(t: Training, name: Seq<char>, k: nat) -> Seq<usize>
    decreases k,
{
    if k == 0 {
        Seq::empty()
    } else {
        prefix_nodes(t, name, (k - 1) as nat).push(learn_prefix(t, name, k).1)
    }
}

/// The node before position `j` of a name: `START`, or the node of the
/// character before.
pub open spec fn node_before(nodes: Seq<usize>, j: int) -> usize {
    if j == 0 {
        START
    } else {
        nodes[j - 1]
    }
}

/// Whether the node at position `j` of a chain exists, carries the character
/// at that position of `name`, and follows the node before it.
pub open spec fn chained(model: Model, name: Seq<char>, nodes: Seq<usize>, j: int) -> bool {
    &&& nodes[j] < model.labels.len()
    &&& model.labels[nodes[j] as int] == name[j]
    &&& model.edges.contains((node_before(nodes, j), nodes[j]))
}

/// Adding an edge keeps every edge and has the one added.
pub proof fn lemma_with_edge(edges: Seq<(usize, usize)>, a: usize, b: usize)
    ensures
        with_edge(edges, a, b).contains((a, b)),
        forall|e: (usize, usize)| #[trigger] edges.contains(e) ==> with_edge(edges, a, b).contains(e),
{
    if !edges.contains((a, b)) {
        assert(edges.push((a, b))[edges.len() as int] == (a, b));
        assert forall|e: (usize, usize)| #[trigger] edges.contains(e) implies edges.push((a, b)).contains(
            e,
        ) by {
            let i = edges.index_of(e);
            assert(edges.push((a, b))[i] == e);
        }
    }
}

/// Extending is transitive.
pub proof fn lemma_extends_twice(a: Model, b: Model, c: Model)
    requires
        extends(a, b),
        extends(b, c),
    ensures
        extends(a, c),
{
    reveal(extends);
    assert forall|n: int| 0 <= n < a.labels.len() implies #[trigger] c.labels[n] == a.labels[n] by {
        assert(b.labels[n] == a.labels[n]);
    }
    assert forall|e: (usize, usize)| #[trigger] a.edges.contains(e) implies c.edges.contains(e) by {
        assert(b.edges.contains(e));
    }
}

/// What a model accepts, every model that extends it accepts.
pub proof fn lemma_extends_accepts(before: Model, after: Model, name: Seq<char>)
    requires
        extends(before, after),
        accepts(before, name),
    ensures
        accepts(after, name),
{
    reveal(extends);
    reveal(accepts);
    let nodes = choose|nodes: Seq<usize>| is_walk(before, nodes) && spelled(before, nodes) == name;
    assert forall|i: int| 0 <= i < nodes.len() - 1 implies #[trigger] joined(after, nodes, i) by {
        assert(joined(before, nodes, i));
    }
    assert(is_walk(after, nodes));
    assert(spelled(after, nodes) =~= spelled(before, nodes));
}

/// Learning one character extends the model by at most one node and one
/// edge, and gives a node that carries the character and follows `prev`.
pub proof fn lemma_learn_char(t: Training, prev: usize, index: int, c: char)
    requires
        fit(t),
        0 <= index < t.layers.len(),
        prev < t.model.labels.len(),
        t.model.labels.len() < usize::MAX,
    ensures
        ({
            let (u, node) = learn_char(t, prev, index, c);
            &&& fit(u)
            &&& u.layers.len() == t.layers.len()
            &&& u.model.labels.len() <= t.model.labels.len() + 1
            &&& extends(t.model, u.model)
            &&& node < u.model.labels.len()
            &&& u.model.labels[node as int] == c
            &&& u.model.edges.contains((prev, node))
        }),
{
    reveal(extends);
    let (u, node) = learn_char(t, prev, index, c);
    lemma_with_edge(t.model.edges, prev, node);
    match find_label(t.model.labels, t.layers[index], c) {
        Some(found) => {
            lemma_found_label(t.model.labels, t.layers[index], c);
            let j = t.layers[index].index_of(found);
            assert(t.layers[index][j] == found);
        },
        None => {
            assert forall|i: int, j: int| 0 <= i < u.layers.len() && 0 <= j < u.layers[i].len() implies (
            #[trigger] u.layers[i][j]) < u.model.labels.len() by {
                if i == index && j == t.layers[index].len() {
                } else {
                    assert(u.layers[i][j] == t.layers[i][j]);
                }
            }
        },
    }
}

/// Learning the first `k` characters of a name lays a chain of nodes from
/// `START` that carry them.
pub proof fn lemma_learn_prefix(t: Training, name: Seq<char>, k: nat)
    requires
        fit(t),
        k <= name.len() <= t.layers.len(),
        t.model.labels.len() + k < usize::MAX,
    ensures
        ({
            let (u, prev) = learn_prefix(t, name, k);
            let nodes = prefix_nodes(t, name, k);
            &&& fit(u)
            &&& u.layers.len() == t.layers.len()
            &&& u.model.labels.len() <= t.model.labels.len() + k
            &&& extends(t.model, u.model)
            &&& nodes.len() == k
            &&& prev == node_before(nodes, k as int)
            &&& prev < u.model.labels.len()
            &&& forall|j: int| 0 <= j < k ==> #[trigger] chained(u.model, name, nodes, j)
        }),
    decreases k,
{
    if k > 0 {
        let (v, before) = learn_prefix(t, name, (k - 1) as nat);
        let earlier = prefix_nodes(t, name, (k - 1) as nat);
        lemma_learn_prefix(t, name, (k - 1) as nat);
        lemma_learn_char(v, before, k - 1, name[k - 1]);
        let (u, prev) = learn_prefix(t, name, k);
        let nodes = prefix_nodes(t, name, k);
        lemma_extends_twice(t.model, v.model, u.model);
        assert forall|j: int| 0 <= j < k implies #[trigger] chained(u.model, name, nodes, j) by {
            if j < k - 1 {
                assert(chained(v.model, name, earlier, j));
                assert(nodes[j] == earlier[j]);
                assert(node_before(nodes, j) == node_before(earlier, j));
                lemma_extends_keeps(v.model, u.model, earlier[j], node_before(earlier, j));
            } else {
                assert(node_before(nodes, j) == before);
            }
        }
    } else {
        reveal(extends);
    }
}

/// A model that extends another has its nodes, with their characters, and
/// its edges.
pub proof fn lemma_extends_keeps(before: Model, after: Model, node: usize, from: usize)
    requires
        extends(before, after),
    ensures
        before.labels.len() <= after.labels.len(),
        node < before.labels.len() ==> after.labels[node as int] == before.labels[node as int],
        before.edges.contains((from, node)) ==> after.edges.contains((from, node)),
{
    reveal(extends);
}

/// A chain of nodes from `START` to `END` that carry the characters of a name
/// makes the model accept the name.
pub proof fn lemma_chain_accepts(model: Model, inner: Seq<usize>, name: Seq<char>)
    requires
        model.labels.len() >= 2,
        inner.len() == name.len(),
        forall|j: int| 0 <= j < inner.len() ==> #[trigger] chained(model, name, inner, j),
        model.edges.contains((node_before(inner, inner.len() as int), END)),
    ensures
        accepts(model, name),
{
    let nodes = Seq::new(
        inner.len() + 2,
        |i: int|
            if i == 0 {
                START
            } else if i <= inner.len() {
                inner[i - 1]
            } else {
                END
            },
    );
    assert forall|i: int| 0 <= i < nodes.len() implies (#[trigger] nodes[i]) < model.labels.len() by {
        if 0 < i <= inner.len() {
            assert(chained(model, name, inner, i - 1));
        }
    }
    assert forall|i: int| 0 <= i < nodes.len() - 1 implies #[trigger] joined(model, nodes, i) by {
        if i < inner.len() {
            assert(chained(model, name, inner, i));
            assert(nodes[i + 1] == inner[i]);
            assert(nodes[i] == node_before(inner, i));
        } else {
            assert(nodes[i] == node_before(inner, inner.len() as int));
            assert(nodes[i + 1] == END);
        }
    }
    assert(spelled(model, nodes) =~= name) by {
        assert forall|i: int| 0 <= i < name.len() implies spelled(model, nodes)[i] == name[i] by {
            assert(chained(model, name, inner, i));
            assert(nodes[i + 1] == inner[i]);
        }
    }
    lemma_walk_accepted(model, nodes);
}

/// What a walk spells is accepted.
pub proof fn lemma_walk_accepted(model: Model, nodes: Seq<usize>)
    requires
        nodes.len() >= 2,
        nodes[0] == START,
        nodes.last() == END,
        forall|i: int| 0 <= i < nodes.len() ==> (#[trigger] nodes[i]) < model.labels.len(),
        forall|i: int| 0 <= i < nodes.len() - 1 ==> #[trigger] joined(model, nodes, i),
    ensures
        accepts(model, spelled(model, nodes)),
{
    reveal(accepts);
    assert(is_walk(model, nodes));
}

/// A name that was learnt is accepted, and learning it loses nothing.
pub proof fn lemma_learn_name(t: Training, name: Seq<char>)
    requires
        fit(t),
        name.len() <= t.layers.len(),
        t.model.labels.len() + name.len() < usize::MAX,
    ensures
        fit(learn_name(t, name)),
        learn_name(t, name).layers.len() == t.layers.len(),
        learn_name(t, name).model.labels.len() <= t.model.labels.len() + name.len(),
        extends(t.model, learn_name(t, name).model),
        accepts(learn_name(t, name).model, name),
{
    let (u, prev) = learn_prefix(t, name, name.len());
    let inner = prefix_nodes(t, name, name.len());
    let w = learn_name(t, name);
    lemma_learn_prefix(t, name, name.len());
    lemma_with_edge(u.model.edges, prev, END);
    assert(extends(u.model, w.model)) by {
        reveal(extends);
    }
    lemma_extends_twice(t.model, u.model, w.model);
    assert forall|j: int| 0 <= j < inner.len() implies #[trigger] chained(w.model, name, inner, j) by {
        assert(chained(u.model, name, inner, j));
        lemma_extends_keeps(u.model, w.model, inner[j], node_before(inner, j));
    }
    lemma_chain_accepts(w.model, inner, name);
}

/// The number of characters in the first `k` names.
pub open spec fn characters(names: Seq<Seq<char>>, k: nat) -> nat
    decreases k,
{
    if k == 0 {
        0
    } else {
        characters(names, (k - 1) as nat) + names[k - 1].len()
    }
}

/// After the first `k` names were learnt, each of them is accepted, and so
/// is whatever was accepted before.
pub proof fn lemma_learn_names(t: Training, names: Seq<Seq<char>>, k: nat)
    requires
        fit(t),
        k <= names.len(),
        longest(names) <= t.layers.len(),
        t.model.labels.len() + characters(names, k) < usize::MAX,
    ensures
        fit(learn_names(t, names, k)),
        learn_names(t, names, k).layers.len() == t.layers.len(),
        learn_names(t, names, k).model.labels.len() <= t.model.labels.len() + characters(names, k),
        extends(t.model, learn_names(t, names, k).model),
        forall|i: int| 0 <= i < k ==> accepts(learn_names(t, names, k).model, #[trigger] names[i]),
    decreases k,
{
    if k > 0 {
        let v = learn_names(t, names, (k - 1) as nat);
        let u = learn_names(t, names, k);
        lemma_learn_names(t, names, (k - 1) as nat);
        lemma_longest_bounds(names, k - 1);
        lemma_learn_name(v, names[k - 1]);
        lemma_extends_twice(t.model, v.model, u.model);
        assert forall|i: int| 0 <= i < k implies accepts(u.model, #[trigger] names[i]) by {
            if i < k - 1 {
                lemma_extends_accepts(v.model, u.model, names[i]);
            }
        }
    } else {
        reveal(extends);
    }
}

/// Training on a corpus makes the model accept every name of the corpus and
/// keeps whatever it accepted before.
pub proof fn lemma_trained_accepts(model: Model, names: Seq<Seq<char>>)
    requires
        model.labels.len() >= 2,
        model.labels.len() + characters(names, names.len()) < usize::MAX,
    ensures
        extends(model, trained(model, names)),
        forall|i: int| 0 <= i < names.len() ==> accepts(trained(model, names), #[trigger] names[i]),
        forall|name: Seq<char>| #[trigger]
            accepts(model, name) ==> accepts(trained(model, names), name),
{
    let t = Training { model, layers: empty_layers(longest(names)) };
    lemma_learn_names(t, names, names.len());
    assert forall|name: Seq<char>| #[trigger] accepts(model, name) implies accepts(
        trained(model, names),
        name,
    ) by {
        lemma_extends_accepts(model, trained(model, names), name);
    }
}

} // verus!
