//! A name model: a layered graph of characters learnt from a corpus, and
//! random walks through it that spell new names.

use crate::graph::{
    graph_add_node, graph_edges, graph_labels, graph_neighbors, graph_new, graph_node_weight,
    graph_update_edge, successors,
};
use crate::random::{std_rng_choose, std_rng_from_seed};
use petgraph::graph::Graph;
use petgraph::Directed;
use rand::StdRng;
use vstd::prelude::*;

verus! {

/// The node at which every walk begins.
pub const START: usize = 0;

/// The node at which every walk ends.
pub const END: usize = 1;

/// The number of walks that one call of `generate` may spend.
pub const ATTEMPTS: u32 = 27;

/// A name of this many characters or more is valid only with a space in it.
pub const LONG_NAME: usize = 9;

/// `String::push`: the string afterwards is the string before with the
/// character at its end.
pub assume_specification[ String::push ](text: &mut String, c: char)
    ensures
        final(text)@ == old(text)@.push(c),
;

/// Whether a name may be handed out: it holds a space or is short.
pub open spec fn valid_name(name: Seq<char>) -> bool {
    name.contains(' ') || name.len() < LONG_NAME
}

/// The graph of a name model.
pub ghost struct Model {
    /// The character of each node. Those of `START` and `END` stand for no
    /// character of a name.
    pub labels: Seq<char>,
    /// Which node may follow which, in the order in which that was learnt.
    pub edges: Seq<(usize, usize)>,
}

/// Whether an edge joins the node at position `i` to the next one.
pub open spec fn joined(model: Model, nodes: Seq<usize>, i: int) -> bool {
    model.edges.contains((nodes[i], nodes[i + 1]))
}

/// Whether `nodes` is a walk from `START` to `END` along the edges.
pub open spec fn is_walk(model: Model, nodes: Seq<usize>) -> bool {
    &&& nodes.len() >= 2
    &&& nodes[0] == START
    &&& nodes.last() == END
    &&& forall|i: int| 0 <= i < nodes.len() ==> (#[trigger] nodes[i]) < model.labels.len()
    &&& forall|i: int| 0 <= i < nodes.len() - 1 ==> #[trigger] joined(model, nodes, i)
}

/// The characters that a walk passes between its two ends.
pub open spec fn spelled(model: Model, nodes: Seq<usize>) -> Seq<char> {
    Seq::new((nodes.len() - 2) as nat, |i: int| model.labels[nodes[i + 1] as int])
}

/// Whether some walk from `START` to `END` spells `name`.
#[verifier::opaque]
pub open spec fn accepts(model: Model, name: Seq<char>) -> bool {
    exists|nodes: Seq<usize>| is_walk(model, nodes) && spelled(model, nodes) == name
}

/// What training keeps beside the graph: for each position in a name, the
/// nodes made for that position, in order of creation.
pub ghost struct Training {
    pub model: Model,
    pub layers: Seq<Seq<usize>>,
}

/// The earliest node of `layer` that carries `c`, if there is one.
pub open spec fn find_label(labels: Seq<char>, layer: Seq<usize>, c: char) -> Option<usize>
    decreases layer.len(),
{
    if layer.len() == 0 {
        None
    } else if labels[layer[0] as int] == c {
        Some(layer[0])
    } else {
        find_label(labels, layer.drop_first(), c)
    }
}

/// The edges with one from `a` to `b` among them: added at the end unless it
/// is there.
pub open spec fn with_edge(edges: Seq<(usize, usize)>, a: usize, b: usize) -> Seq<(usize, usize)> {
    if edges.contains((a, b)) {
        edges
    } else {
        edges.push((a, b))
    }
}

/// Learns that `c` may stand at position `index` after the node `prev`: the
/// node that carries `c` at that position is reused or, if there is none,
/// made; `prev` gets an edge to it. Gives the node beside the new state.
pub open spec fn learn_char(t: Training, prev: usize, index: int, c: char) -> (Training, usize) {
    match find_label(t.model.labels, t.layers[index], c) {
        Some(node) => (
            Training {
                model: Model { labels: t.model.labels, edges: with_edge(t.model.edges, prev, node) },
                layers: t.layers,
            },
            node,
        ),
        None => {
            let node = t.model.labels.len() as usize;
            (
                Training {
                    model: Model {
                        labels: t.model.labels.push(c),
                        edges: with_edge(t.model.edges, prev, node),
                    },
                    layers: t.layers.update(index, t.layers[index].push(node)),
                },
                node,
            )
        },
    }
}

/// Learns the first `k` characters of `name`, beginning at `START`. Gives the
/// node of the last of them beside the new state.
pub open spec fn learn_prefix(t: Training, name: Seq<char>, k: nat) -> (Training, usize)
    decreases k,
{
    if k == 0 {
        (t, START)
    } else {
        let (u, prev) = learn_prefix(t, name, (k - 1) as nat);
        learn_char(u, prev, k - 1, name[k - 1])
    }
}

/// Learns `name`: its characters in turn, then an edge from the last of them
/// to `END`.
pub open spec fn learn_name(t: Training, name: Seq<char>) -> Training {
    let (u, prev) = learn_prefix(t, name, name.len());
    Training {
        model: Model { labels: u.model.labels, edges: with_edge(u.model.edges, prev, END) },
        layers: u.layers,
    }
}

/// Learns the first `k` of `names`, in order.
pub open spec fn learn_names(t: Training, names: Seq<Seq<char>>, k: nat) -> Training
    decreases k,
{
    if k == 0 {
        t
    } else {
        learn_name(learn_names(t, names, (k - 1) as nat), names[k - 1])
    }
}

/// The length of the longest of `names`.
pub open spec fn longest(names: Seq<Seq<char>>) -> nat
    decreases names.len(),
{
    if names.len() == 0 {
        0
    } else if names.last().len() > longest(names.drop_last()) {
        names.last().len()
    } else {
        longest(names.drop_last())
    }
}

/// `count` layers without nodes.
pub open spec fn empty_layers(count: nat) -> Seq<Seq<usize>> {
    Seq::new(count, |i: int| Seq::<usize>::empty())
}

/// The model after a corpus has been learnt. Nodes are shared by position
/// within one corpus only: every training begins with layers of its own.
pub open spec fn trained(model: Model, names: Seq<Seq<char>>) -> Model {
    learn_names(Training { model, layers: empty_layers(longest(names)) }, names, names.len()).model
}

/// The character sequences of a list of strings.
pub open spec fn spellings(names: Seq<String>) -> Seq<Seq<char>> {
    Seq::new(names.len(), |i: int| names[i]@)
}

/// The node sets of a list of layers.
pub open spec fn layers_of(layers: Seq<Vec<usize>>) -> Seq<Seq<usize>> {
    Seq::new(layers.len(), |i: int| layers[i]@)
}

/// Whether an edge joins two nodes of which the second lies one layer deeper
/// than the first or is `END`.
pub open spec fn edge_fits(depth: Seq<nat>, edge: (usize, usize)) -> bool {
    &&& edge.0 < depth.len()
    &&& edge.1 < depth.len()
    &&& edge.0 != END
    &&& edge.1 == END || depth[edge.1 as int] == depth[edge.0 as int] + 1
}

/// Whether the graph is layered by `depth`: the two ends exist at depth
/// nought, every edge fits, and no node lies deeper than `height`.
#[verifier::opaque]
pub open spec fn layered(model: Model, depth: Seq<nat>, height: nat) -> bool {
    &&& model.labels.len() >= 2
    &&& depth.len() == model.labels.len()
    &&& depth[START as int] == 0
    &&& depth[END as int] == 0
    &&& forall|k: int| 0 <= k < model.edges.len() ==> edge_fits(depth, #[trigger] model.edges[k])
    &&& forall|i: int| 0 <= i < depth.len() ==> #[trigger] depth[i] <= height
}

/// Whether the model accepts `name` and yet it may not be handed out: it is
/// not valid, or it was handed out before.
pub open spec fn refused(model: Model, generated: Seq<Seq<char>>, name: Seq<char>) -> bool {
    accepts(model, name) && !(valid_name(name) && !generated.contains(name))
}

/// Whether each of `walks` spelled a name that was refused.
pub open spec fn all_refused(model: Model, generated: Seq<Seq<char>>, walks: Seq<Seq<char>>) -> bool {
    forall|i: int| 0 <= i < walks.len() ==> refused(model, generated, #[trigger] walks[i])
}

/// Whether a walk can leave `START`: the model has learnt a name.
pub open spec fn walkable(model: Model) -> bool {
    successors(model.edges, START).len() > 0
}

/// Whether the model owes a name whatever is drawn, once the names in
/// `generated` were handed out: a walk can leave `START`, and every name that
/// the model accepts is valid and none of `generated`.
pub open spec fn owes(model: Model, generated: Seq<Seq<char>>) -> bool {
    &&& walkable(model)
    &&& forall|name: Seq<char>| #[trigger]
        accepts(model, name) ==> valid_name(name) && !generated.contains(name)
}

/// Whether some draws leave the model without a name to give: no walk can
/// leave `START`, or there are walks for a whole call, each of which spells
/// a name that is refused.
pub open spec fn may_fail(model: Model, generated: Seq<Seq<char>>) -> bool {
    !walkable(model) || exists|walks: Seq<Seq<char>>|
        walks.len() == ATTEMPTS && #[trigger] all_refused(model, generated, walks)
}

/// What one call for a name does to the names handed out, for each result:
/// a name is one that the model accepts, valid and not handed out before, and
/// is handed out now; without a name nothing is handed out, and the draws
/// were such as leave the model without one.
pub open spec fn gives(
    model: Model,
    before: Seq<Seq<char>>,
    name: Option<Seq<char>>,
    after: Seq<Seq<char>>,
) -> bool {
    match name {
        Some(text) => {
            &&& walkable(model)
            &&& accepts(model, text)
            &&& valid_name(text)
            &&& !before.contains(text)
            &&& after == before.push(text)
        },
        None => after == before && may_fail(model, before),
    }
}

/// A model that owes a name cannot be left without one.
pub proof fn lemma_owed_is_given(model: Model, generated: Seq<Seq<char>>)
    requires
        owes(model, generated),
    ensures
        !may_fail(model, generated),
{
    if may_fail(model, generated) {
        let walks = choose|walks: Seq<Seq<char>>|
            walks.len() == ATTEMPTS && #[trigger] all_refused(model, generated, walks);
        assert(refused(model, generated, walks[0]));
    }
}

/// Whether every node but the two ends and the nodes `x` and `y` has a
/// successor, so that no walk comes to a stop there.
pub open spec fn live(edges: Seq<(usize, usize)>, count: nat, x: usize, y: usize) -> bool {
    forall|n: usize| 2 <= n < count && n != x && n != y ==> (#[trigger] successors(edges, n)).len() > 0
}

/// A node that an edge leaves has a successor.
pub proof fn lemma_edge_leaves(edges: Seq<(usize, usize)>, a: usize, b: usize)
    requires
        edges.contains((a, b)),
    ensures
        successors(edges, a).len() > 0,
    decreases edges.len(),
{
    if edges.last().0 != a {
        let i = edges.index_of((a, b));
        assert(edges[i] == (a, b));
        assert(edges.drop_last()[i] == (a, b));
        lemma_edge_leaves(edges.drop_last(), a, b);
    }
}

/// Joining `a` to `b` gives `a` a successor and takes none from any node.
pub proof fn lemma_join_leaves(edges: Seq<(usize, usize)>, a: usize, b: usize, n: usize)
    ensures
        successors(with_edge(edges, a, b), a).len() > 0,
        successors(edges, n).len() > 0 ==> successors(with_edge(edges, a, b), n).len() > 0,
        n != a ==> successors(with_edge(edges, a, b), n) == successors(edges, n),
{
    if edges.contains((a, b)) {
        lemma_edge_leaves(edges, a, b);
    } else {
        assert(edges.push((a, b)).drop_last() =~= edges);
    }
}

/// A node found in a layer belongs to it and carries the character looked
/// for.
pub proof fn lemma_found_label(labels: Seq<char>, layer: Seq<usize>, c: char)
    requires
        find_label(labels, layer, c) is Some,
    ensures
        layer.contains(find_label(labels, layer, c).unwrap()),
        labels[find_label(labels, layer, c).unwrap() as int] == c,
    decreases layer.len(),
{
    if labels[layer[0] as int] == c {
        assert(layer[0] == find_label(labels, layer, c).unwrap());
    } else {
        lemma_found_label(labels, layer.drop_first(), c);
        let node = find_label(labels, layer, c).unwrap();
        let j = layer.drop_first().index_of(node);
        assert(layer[j + 1] == node);
    }
}

/// No name is longer than the longest.
pub proof fn lemma_longest_bounds(names: Seq<Seq<char>>, i: int)
    requires
        0 <= i < names.len(),
    ensures
        names[i].len() <= longest(names),
    decreases names.len(),
{
    if i < names.len() - 1 {
        lemma_longest_bounds(names.drop_last(), i);
    }
}

/// A node listed among the successors of another is joined to it by an edge.
pub proof fn lemma_successor_is_edge(edges: Seq<(usize, usize)>, a: usize, b: usize)
    requires
        successors(edges, a).contains(b),
    ensures
        edges.contains((a, b)),
    decreases edges.len(),
{
    if edges.len() > 0 {
        let rest = edges.drop_last();
        if edges.last().0 == a && edges.last().1 == b {
            assert(edges[edges.len() - 1] == (a, b));
        } else {
            if edges.last().0 == a {
                let s = seq![edges.last().1] + successors(rest, a);
                let i = s.index_of(b);
                assert(s[i] == b);
                assert(i > 0);
                assert(successors(rest, a)[i - 1] == b);
            }
            lemma_successor_is_edge(rest, a, b);
            let j = rest.index_of((a, b));
            assert(edges[j] == (a, b));
        }
    }
}

/// The number of characters of the longest of `names`.
fn longest_name(names: &Vec<String>) -> (n: usize)
    ensures
        n == longest(spellings(names@)),
{
    let mut n: usize = 0;
    let mut i: usize = 0;
    while i < names.len()
        invariant
            0 <= i <= names@.len(),
            n == longest(spellings(names@).take(i as int)),
        decreases names@.len() - i,
    {
        let len = names[i].as_str().unicode_len();
        proof {
            let all = spellings(names@);
            assert(all.take(i + 1).drop_last() =~= all.take(i as int));
            assert(all.take(i + 1).last() == names@[i as int]@);
        }
        if len > n {
            n = len;
        }
        i += 1;
    }
    proof {
        assert(spellings(names@).take(names@.len() as int) =~= spellings(names@));
    }
    n
}

/// The earliest node of `layer` that carries `c`, if there is one.
fn find_in_layer(graph: &Graph<char, (), Directed, usize>, layer: &Vec<usize>, c: char) -> (found:
    Option<usize>)
    requires
        forall|j: int| 0 <= j < layer@.len() ==> (#[trigger] layer@[j]) < graph_labels(*graph).len(),
    ensures
        found == find_label(graph_labels(*graph), layer@, c),
{
    let mut j: usize = 0;
    assert(layer@.skip(0) =~= layer@);
    while j < layer.len()
        invariant
            0 <= j <= layer@.len(),
            forall|k: int| 0 <= k < layer@.len() ==> (#[trigger] layer@[k]) < graph_labels(*graph).len(),
            find_label(graph_labels(*graph), layer@, c) == find_label(
                graph_labels(*graph),
                layer@.skip(j as int),
                c,
            ),
        decreases layer@.len() - j,
    {
        let node = layer[j];
        proof {
            assert(layer@.skip(j as int)[0] == node);
            assert(layer@.skip(j as int).drop_first() =~= layer@.skip(j + 1));
        }
        match graph_node_weight(graph, node) {
            Some(label) => {
                if label == c {
                    return Some(node);
                }
            },
            None => {},
        }
        j += 1;
    }
    None
}

/// In a layered graph, a successor of a node is joined to it by an edge and
/// is `END` or lies one layer deeper.
proof fn lemma_step(model: Model, depth: Seq<nat>, height: nat, current: usize, next: usize)
    requires
        layered(model, depth, height),
        successors(model.edges, current).contains(next),
    ensures
        model.edges.contains((current, next)),
        current < model.labels.len(),
        next < model.labels.len(),
        current != END,
        next != START,
        next == END || depth[next as int] == depth[current as int] + 1,
        next != END ==> depth[next as int] <= height,
{
    reveal(layered);
    lemma_successor_is_edge(model.edges, current, next);
    let k = model.edges.index_of((current, next));
    assert(edge_fits(depth, model.edges[k]));
}

/// A walk that has come to `END` spells the characters it passed.
proof fn lemma_walk_spells(model: Model, nodes: Seq<usize>, text: Seq<char>)
    requires
        nodes.len() >= 2,
        nodes[0] == START,
        nodes.last() == END,
        forall|i: int| 0 <= i < nodes.len() ==> (#[trigger] nodes[i]) < model.labels.len(),
        forall|i: int| 0 <= i < nodes.len() - 1 ==> #[trigger] joined(model, nodes, i),
        text.len() == nodes.len() - 2,
        forall|i: int| 0 <= i < text.len() ==> #[trigger] text[i] == model.labels[nodes[i + 1] as int],
    ensures
        accepts(model, text),
{
    reveal(accepts);
    assert(is_walk(model, nodes));
    assert(spelled(model, nodes) =~= text);
}

/// One random walk from `START` to `END` through a layered graph in which
/// no node between the ends is without a successor, and the characters it
/// passed. The walk comes to `END` whichever successors are drawn, unless
/// `START` has none: then there is no walk and nothing is spelled.
fn walk(
    graph: &Graph<char, (), Directed, usize>,
    rng: &mut StdRng,
    Ghost(depth): Ghost<Seq<nat>>,
    Ghost(height): Ghost<nat>,
) -> (name: Option<String>)
    requires
        layered(Model { labels: graph_labels(*graph), edges: graph_edges(*graph) }, depth, height),
        live(graph_edges(*graph), graph_labels(*graph).len(), START, END),
    ensures
        name is Some <==> successors(graph_edges(*graph), START).len() > 0,
        name matches Some(text) ==> accepts(
            Model { labels: graph_labels(*graph), edges: graph_edges(*graph) },
            text@,
        ),
{
    let ghost model = Model { labels: graph_labels(*graph), edges: graph_edges(*graph) };
    let mut text = String::new();
    let mut current = START;
    let ghost mut nodes: Seq<usize> = seq![START];
    proof {
        reveal(layered);
    }
    while current != END
        invariant
            model == (Model { labels: graph_labels(*graph), edges: graph_edges(*graph) }),
            layered(model, depth, height),
            live(model.edges, model.labels.len(), START, END),
            nodes.len() >= 1,
            nodes[0] == START,
            nodes.last() == current,
            current != END,
            current == START || successors(model.edges, START).len() > 0,
            depth[current as int] <= height,
            forall|i: int| 0 <= i < nodes.len() ==> (#[trigger] nodes[i]) < model.labels.len(),
            forall|i: int| 0 <= i < nodes.len() - 1 ==> #[trigger] joined(model, nodes, i),
            text@.len() == nodes.len() - 1,
            forall|i: int| 0 <= i < text@.len() ==> #[trigger] text@[i] == model.labels[nodes[i + 1] as int],
        decreases
                (if current == END {
                    0
                } else {
                    height + 1 - depth[current as int]
                }),
    {
        let neighbors = graph_neighbors(graph, current);
        let next = match std_rng_choose(rng, &neighbors) {
            Some(next) => *next,
            None => {
                // Only `START` can be without a successor.
                assert(current == START) by {
                    if current != START {
                        assert(successors(model.edges, current).len() > 0);
                    }
                }
                return None;
            },
        };
        let ghost longer = nodes.push(next);
        proof {
            lemma_step(model, depth, height, current, next);
            assert forall|i: int| 0 <= i < longer.len() - 1 implies #[trigger] joined(
                model,
                longer,
                i,
            ) by {
                if i < nodes.len() - 1 {
                    assert(joined(model, nodes, i));
                }
            }
        }
        if next == END {
            proof {
                lemma_walk_spells(model, longer, text@);
            }
            return Some(text);
        }
        match graph_node_weight(graph, next) {
            Some(c) => {
                text.push(c);
            },
            None => {
                return None;
            },
        }
        proof {
            nodes = longer;
        }
        current = next;
    }
    None
}

/// Whether the string holds a space or is short.
pub fn is_valid_name(name: &String) -> (valid: bool)
    ensures
        valid == valid_name(name@),
{
    let text = name.as_str();
    let n = text.unicode_len();
    if n < LONG_NAME {
        return true;
    }
    let mut i: usize = 0;
    while i < n
        invariant
            0 <= i <= n,
            n == text@.len(),
            text@ == name@,
            forall|j: int| 0 <= j < i ==> text@[j] != ' ',
        decreases n - i,
    {
        if text.get_char(i) == ' ' {
            return true;
        }
        i += 1;
    }
    false
}

/// A trainable generator of names that resemble its corpus.
pub struct NameGen {
    rng: StdRng,
    generated: Vec<String>,
    graph: Graph<char, (), Directed, usize>,
    /// The number of edges on the way from `START` to each node.
    depth: Ghost<Seq<nat>>,
    /// A bound on the depth of every node.
    height: Ghost<nat>,
}

impl NameGen {
    /// The graph learnt so far.
    pub closed spec fn model(&self) -> Model {
        Model { labels: graph_labels(self.graph), edges: graph_edges(self.graph) }
    }

    /// The names handed out so far, oldest first.
    pub closed spec fn generated(&self) -> Seq<Seq<char>> {
        Seq::new(self.generated@.len(), |i: int| self.generated@[i]@)
    }

    /// The invariant of the model while a name is being learnt: as `wf`, but
    /// that the nodes `x` and `y` may still be without a successor.
    spec fn sound(&self, x: usize, y: usize) -> bool {
        &&& layered(self.model(), self.depth@, self.height@)
        &&& live(self.model().edges, self.model().labels.len(), x, y)
        &&& self.model().labels[START as int] == '<'
        &&& self.model().labels[END as int] == '>'
        &&& self.generated().no_duplicates()
        &&& forall|i: int| 0 <= i < self.generated().len() ==> valid_name(#[trigger] self.generated()[i])
    }

    /// The invariant of the model: the graph is layered, every node between
    /// its two ends has a successor, the ends carry their marks, and the
    /// names handed out are valid and pairwise distinct.
    pub closed spec fn wf(&self) -> bool {
        self.sound(START, END)
    }

    /// Whether a walk can leave `START`: the model has learnt a name.
    pub open spec fn can_walk(&self) -> bool {
        walkable(self.model())
    }

    /// Whether a name is owed whatever is drawn: a walk can leave `START`,
    /// and every name that the model accepts is valid and was not handed out.
    pub open spec fn owes_name(&self) -> bool {
        owes(self.model(), self.generated())
    }

    /// A model that has learnt nothing yet, with its random source seeded
    /// by `seed`.
    pub fn new(seed: u32) -> (model: NameGen)
        ensures
            model.wf(),
            model.model() == (Model { labels: seq!['<', '>'], edges: Seq::empty() }),
            model.generated() == Seq::<Seq<char>>::empty(),
            !model.can_walk(),
    {
        proof {
            reveal(layered);
        }
        let rng = std_rng_from_seed(seed as usize);
        let mut graph = graph_new();
        graph_add_node(&mut graph, '<');
        graph_add_node(&mut graph, '>');
        let ghost depth: Seq<nat> = Seq::empty().push(0).push(0);
        let model = NameGen { rng, generated: Vec::new(), graph, depth: Ghost(depth), height: Ghost(0) };
        assert(graph_labels(model.graph) =~= seq!['<', '>']);
        assert(model.generated() =~= Seq::<Seq<char>>::empty());
        model
    }

    /// Whether every node of every layer exists, is none of the two ends and
    /// lies as deep as its layer says.
    spec fn layers_wf(&self, layers: Seq<Seq<usize>>) -> bool {
        forall|i: int, j: int|
            0 <= i < layers.len() && 0 <= j < layers[i].len() ==> {
                let node = #[trigger] layers[i][j];
                &&& node < graph_labels(self.graph).len()
                &&& self.depth@[node as int] == i + 1
            }
    }

    /// Joins `a` to `b`, where `b` lies one layer on or is `END`. After that
    /// `a` has a successor.
    fn join(&mut self, a: usize, b: usize)
        requires
            old(self).sound(a, b),
            a < old(self).model().labels.len(),
            b < old(self).model().labels.len(),
            a != END,
            b == END || old(self).depth@[b as int] == old(self).depth@[a as int] + 1,
        ensures
            final(self).sound(b, END),
            final(self).depth == old(self).depth,
            final(self).generated() == old(self).generated(),
            final(self).can_walk() == (old(self).can_walk() || a == START),
            final(self).model() == (Model {
                labels: old(self).model().labels,
                edges: with_edge(old(self).model().edges, a, b),
            }),
    {
        let ghost before = graph_edges(self.graph);
        graph_update_edge(&mut self.graph, a, b);
        proof {
            reveal(layered);
            let edges = graph_edges(self.graph);
            assert(edge_fits(self.depth@, (a, b)));
            assert forall|k: int| 0 <= k < edges.len() implies edge_fits(
                self.depth@,
                #[trigger] edges[k],
            ) by {
                if k < before.len() {
                    assert(edges[k] == before[k]);
                }
            }
            assert forall|n: usize| 2 <= n < graph_labels(self.graph).len() && n != b implies (
            #[trigger] successors(edges, n)).len() > 0 by {
                lemma_join_leaves(before, a, b, n);
                if n != a {
                    assert(successors(before, n).len() > 0);
                }
            }
            lemma_join_leaves(before, a, b, START);
        }
    }

    /// Learns one character of a name: see `learn_char`.
    fn learn_one(&mut self, layers: &mut Vec<Vec<usize>>, prev: usize, index: usize, c: char) -> (node:
        usize)
        requires
            old(self).sound(prev, END),
            old(self).layers_wf(layers_of(old(layers)@)),
            index < old(layers)@.len(),
            prev < old(self).model().labels.len(),
            prev != END,
            old(self).depth@[prev as int] == index,
        ensures
            final(self).sound(node, END),
            final(self).layers_wf(layers_of(final(layers)@)),
            final(layers)@.len() == old(layers)@.len(),
            final(self).generated() == old(self).generated(),
            final(self).can_walk() == (old(self).can_walk() || prev == START),
            node < final(self).model().labels.len(),
            node != END,
            final(self).depth@[node as int] == index + 1,
            (Training { model: final(self).model(), layers: layers_of(final(layers)@) }, node)
                == learn_char(
                Training { model: old(self).model(), layers: layers_of(old(layers)@) },
                prev,
                index as int,
                c,
            ),
    {
        proof {
            reveal(layered);
        }
        let ghost before = layers_of(layers@);
        assert(before[index as int] == layers@[index as int]@);
        assert forall|j: int| 0 <= j < layers@[index as int]@.len() implies (
        #[trigger] layers@[index as int]@[j]) < graph_labels(self.graph).len() by {
            assert(before[index as int][j] == layers@[index as int]@[j]);
        }
        let node = match find_in_layer(&self.graph, &layers[index], c) {
            Some(node) => {
                proof {
                    lemma_found_label(graph_labels(self.graph), before[index as int], c);
                    let j = before[index as int].index_of(node);
                    assert(before[index as int][j] == node);
                    assert(self.sound(prev, node));
                }
                node
            },
            None => {
                let ghost depth = self.depth@;
                let ghost edges = graph_edges(self.graph);
                assert(self.model().edges == edges);
                assert(forall|k: int| 0 <= k < edges.len() ==> edge_fits(depth, #[trigger] edges[k]));
                let node = graph_add_node(&mut self.graph, c);
                layers[index].push(node);
                proof {
                    self.depth@ = depth.push((index + 1) as nat);
                    if self.height@ < index + 1 {
                        self.height@ = (index + 1) as nat;
                    }
                    assert(layers_of(layers@) =~= before.update(
                        index as int,
                        before[index as int].push(node),
                    ));
                    assert forall|k: int| 0 <= k < edges.len() implies edge_fits(
                        self.depth@,
                        #[trigger] edges[k],
                    ) by {
                        assert(edge_fits(depth, edges[k]));
                    }
                    assert forall|i: int, j: int|
                        0 <= i < layers_of(layers@).len() && 0 <= j < layers_of(
                            layers@,
                        )[i].len() implies {
                        let n = #[trigger] layers_of(layers@)[i][j];
                        &&& n < graph_labels(self.graph).len()
                        &&& self.depth@[n as int] == i + 1
                    } by {
                        if i == index && j == before[i].len() {
                        } else {
                            assert(layers_of(layers@)[i][j] == before[i][j]);
                        }
                    }
                    assert forall|n: usize|
                        2 <= n < graph_labels(self.graph).len() && n != prev && n != node implies (
                    #[trigger] successors(edges, n)).len() > 0 by {
                        assert(n < depth.len());
                    }
                    assert(self.sound(prev, node));
                }
                node
            },
        };
        self.join(prev, node);
        node
    }

    /// Learns one name: see `learn_name`.
    fn learn(&mut self, layers: &mut Vec<Vec<usize>>, name: &String)
        requires
            old(self).wf(),
            old(self).layers_wf(layers_of(old(layers)@)),
            name@.len() <= old(layers)@.len(),
        ensures
            final(self).wf(),
            final(self).layers_wf(layers_of(final(layers)@)),
            final(layers)@.len() == old(layers)@.len(),
            final(self).generated() == old(self).generated(),
            final(self).can_walk(),
            (Training { model: final(self).model(), layers: layers_of(final(layers)@) }) == learn_name(
                Training { model: old(self).model(), layers: layers_of(old(layers)@) },
                name@,
            ),
    {
        let ghost begin = Training { model: self.model(), layers: layers_of(layers@) };
        let text = name.as_str();
        let n = text.unicode_len();
        let mut prev = START;
        let mut index: usize = 0;
        proof {
            reveal(layered);
        }
        while index < n
            invariant
                0 <= index <= n,
                n == text@.len(),
                text@ == name@,
                self.sound(prev, END),
                index == 0 ==> prev == START,
                index > 0 ==> self.can_walk(),
                self.layers_wf(layers_of(layers@)),
                layers@.len() == old(layers)@.len(),
                n <= layers@.len(),
                self.generated() == old(self).generated(),
                prev < self.model().labels.len(),
                prev != END,
                self.depth@[prev as int] == index,
                (Training { model: self.model(), layers: layers_of(layers@) }, prev) == learn_prefix(
                    begin,
                    name@,
                    index as nat,
                ),
            decreases n - index,
        {
            let c = text.get_char(index);
            prev = self.learn_one(layers, prev, index, c);
            index += 1;
        }
        proof {
            reveal(layered);
        }
        self.join(prev, END);
    }

    /// Learns a corpus: for every name a walk from `START` to `END` that
    /// spells it, through one node for each character at each position.
    pub fn train(&mut self, names: &Vec<String>)
        requires
            old(self).wf(),
        ensures
            final(self).wf(),
            final(self).generated() == old(self).generated(),
            final(self).model() == trained(old(self).model(), spellings(names@)),
            final(self).can_walk() == (old(self).can_walk() || names@.len() > 0),
    {
        let depth = longest_name(names);
        let mut layers: Vec<Vec<usize>> = Vec::new();
        let mut d: usize = 0;
        while d < depth
            invariant
                0 <= d <= depth,
                layers@.len() == d,
                forall|i: int| 0 <= i < d ==> (#[trigger] layers@[i])@.len() == 0,
            decreases depth - d,
        {
            layers.push(Vec::new());
            d += 1;
        }
        let ghost begin = Training { model: self.model(), layers: layers_of(layers@) };
        proof {
            assert forall|i: int| 0 <= i < begin.layers.len() implies #[trigger] begin.layers[i]
                == Seq::<usize>::empty() by {
                assert(layers@[i]@ =~= Seq::<usize>::empty());
            }
            assert(begin.layers =~= empty_layers(longest(spellings(names@))));
        }
        let mut k: usize = 0;
        while k < names.len()
            invariant
                0 <= k <= names@.len(),
                self.wf(),
                self.can_walk() == (old(self).can_walk() || k > 0),
                self.layers_wf(layers_of(layers@)),
                layers@.len() == longest(spellings(names@)),
                self.generated() == old(self).generated(),
                (Training { model: self.model(), layers: layers_of(layers@) }) == learn_names(
                    begin,
                    spellings(names@),
                    k as nat,
                ),
            decreases names@.len() - k,
        {
            proof {
                lemma_longest_bounds(spellings(names@), k as int);
            }
            self.learn(&mut layers, &names[k]);
            k += 1;
        }
    }

    /// One random walk from `START` to `END`, and the characters it passed:
    /// a name that the model accepts, whichever way the walk takes. There is
    /// none only where no walk can leave `START`.
    fn attempt(&mut self) -> (name: Option<String>)
        requires
            old(self).wf(),
        ensures
            final(self).wf(),
            final(self).model() == old(self).model(),
            final(self).generated() == old(self).generated(),
            name is Some <==> old(self).can_walk(),
            name matches Some(text) ==> accepts(old(self).model(), text@),
    {
        walk(&self.graph, &mut self.rng, Ghost(self.depth@), Ghost(self.height@))
    }

    /// A new name that the model accepts: what the first of the walks spells
    /// that spells a valid name not handed out before. There is none when
    /// no walk can leave `START`, or when each of the `ATTEMPTS` walks that
    /// one call may spend spelled a name that was refused; so a model all of
    /// whose names are valid and unused gives a name whatever is drawn.
    pub fn generate(&mut self) -> (name: Option<String>)
        requires
            old(self).wf(),
        ensures
            final(self).wf(),
            final(self).model() == old(self).model(),
            final(self).generated().no_duplicates(),
            match name {
                Some(text) => gives(
                    old(self).model(),
                    old(self).generated(),
                    Some(text@),
                    final(self).generated(),
                ),
                None => gives(old(self).model(), old(self).generated(), None, final(self).generated()),
            },
            old(self).owes_name() ==> name is Some,
    {
        let mut tries: u32 = 0;
        let ghost mut walks: Seq<Seq<char>> = Seq::empty();
        while tries < ATTEMPTS
            invariant
                0 <= tries <= ATTEMPTS,
                self.wf(),
                self.model() == old(self).model(),
                self.generated() == old(self).generated(),
                tries > 0 ==> !old(self).owes_name(),
                old(self).can_walk() ==> walks.len() == tries && all_refused(
                    old(self).model(),
                    old(self).generated(),
                    walks,
                ),
            decreases ATTEMPTS - tries,
        {
            match self.attempt() {
                Some(text) => {
                    if self.accept_name(&text) {
                        return Some(text);
                    }
                    proof {
                        let longer = walks.push(text@);
                        assert forall|i: int| 0 <= i < longer.len() implies refused(
                            old(self).model(),
                            old(self).generated(),
                            #[trigger] longer[i],
                        ) by {
                            if i < walks.len() {
                                assert(longer[i] == walks[i]);
                            }
                        }
                        walks = longer;
                    }
                },
                None => {},
            }
            tries += 1;
        }
        None
    }

    /// Whether `name` was handed out before.
    fn was_generated(&self, name: &String) -> (found: bool)
        ensures
            found == self.generated().contains(name@),
    {
        let mut i: usize = 0;
        while i < self.generated.len()
            invariant
                0 <= i <= self.generated@.len(),
                forall|j: int| 0 <= j < i ==> self.generated()[j] != name@,
            decreases self.generated@.len() - i,
        {
            if self.generated[i] == *name {
                assert(self.generated()[i as int] == name@);
                return true;
            }
            i += 1;
        }
        false
    }

    /// Takes `name` into the names handed out if it is valid and new, and
    /// says whether it did.
    pub fn accept_name(&mut self, name: &String) -> (taken: bool)
        requires
            old(self).wf(),
        ensures
            final(self).wf(),
            final(self).model() == old(self).model(),
            taken == (valid_name(name@) && !old(self).generated().contains(name@)),
            final(self).generated() == (if taken {
                old(self).generated().push(name@)
            } else {
                old(self).generated()
            }),
    {
        if is_valid_name(name) && !self.was_generated(name) {
            let ghost before = self.generated();
            self.generated.push(name.clone());
            proof {
                assert(self.generated() =~= before.push(name@));
                assert forall|i: int, j: int|
                    0 <= i < self.generated().len() && 0 <= j < self.generated().len() && i
                        != j implies self.generated()[i] != self.generated()[j] by {
                    if i < before.len() {
                        assert(before.contains(before[i]));
                    }
                    if j < before.len() {
                        assert(before.contains(before[j]));
                    }
                }
            }
            true
        } else {
            false
        }
    }
}

} // verus!
