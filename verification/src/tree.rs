//! The game tree: every race reachable by exhausting a pool of dice.

use vstd::prelude::*;
use crate::camel::{face_steps, spec_perform, Camel, Dice, Face, Marker, Race, Roll};
use crate::camel::lemma_remove_camel_at;

verus! {

/// Every terminal race reachable from `s` by drawing all dice of `pool`, one
/// at a time in every order, each die showing every face.
///
/// A leaf is listed once per ordered sequence of (camel, face) draws, so
/// races reached along several sequences are listed several times: with all
/// draw sequences equally likely, the leaves are equally weighted, and the
/// list's relative frequencies are the exact probability law of the round.
pub open spec fn spec_leaves(s: Seq<Marker>, pool: Seq<Camel>) -> Seq<Seq<Marker>>
    decreases pool.len(), 1int, 0int,
{
    if pool.len() == 0 {
        seq![s]
    } else {
        spec_leaves_from(s, pool, 0)
    }
}

/// The leaves contributed by drawing one of the camels at positions `i` and
/// beyond of the pool first.
pub open spec fn spec_leaves_from(s: Seq<Marker>, pool: Seq<Camel>, i: int) -> Seq<Seq<Marker>>
    decreases pool.len(), 0int, pool.len() - i,
{
    if 0 <= i < pool.len() {
        let rest = pool.remove(i);
        spec_leaves(spec_perform(s, pool[i], 1), rest) + spec_leaves(
            spec_perform(s, pool[i], 2),
            rest,
        ) + spec_leaves(spec_perform(s, pool[i], 3), rest) + spec_leaves_from(s, pool, i + 1)
    } else {
        Seq::empty()
    }
}

/// One node of the tree: a race, and for every roll already expanded the
/// index of the resulting child node.
struct Node {
    race: Race,
    children: Vec<(Roll, usize)>,
}

impl Node {
    spec fn is_leaf_spec(&self) -> bool {
        self.children@.len() == 0
    }

    fn new(race: Race) -> (n: Node)
        ensures
            n.race@ == race@,
            n.children@.len() == 0,
    {
        Node { race, children: Vec::new() }
    }

    fn register_child(&mut self, roll: Roll, child_index: usize)
        ensures
            final(self).race == old(self).race,
            final(self).children@ == old(self).children@.push((roll, child_index)),
    {
        self.children.push((roll, child_index));
    }

    fn is_leaf(&self) -> (r: bool)
        ensures
            r == self.is_leaf_spec(),
    {
        self.children.len() == 0
    }
}

/// The races of the leaves among a run of nodes, in arena order.
spec fn leaf_races_of(ns: Seq<Node>) -> Seq<Seq<Marker>>
    decreases ns.len(),
{
    if ns.len() == 0 {
        Seq::empty()
    } else {
        leaf_races_of(ns.drop_last()) + (if ns.last().is_leaf_spec() {
            seq![ns.last().race@]
        } else {
            Seq::empty()
        })
    }
}

proof fn lemma_leaf_races_add(a: Seq<Node>, b: Seq<Node>)
    ensures
        leaf_races_of(a + b) == leaf_races_of(a) + leaf_races_of(b),
    decreases b.len(),
{
    if b.len() == 0 {
        assert(a + b =~= a);
        assert(leaf_races_of(a) + Seq::<Seq<Marker>>::empty() =~= leaf_races_of(a));
    } else {
        assert((a + b).drop_last() =~= a + b.drop_last());
        assert((a + b).last() == b.last());
        lemma_leaf_races_add(a, b.drop_last());
        assert(leaf_races_of(a + b) =~= leaf_races_of(a) + leaf_races_of(b));
    }
}

/// The full game tree, nodes held in an arena indexed by position.
pub struct Tree {
    nodes: Vec<Node>,
}

/// Anything that wants to see every leaf of a tree exactly once.
pub trait LeafVisitor {
    /// Called once for each leaf's race.
    fn visit(&mut self, race: &Race);
}

/// The marker sequences of a list of races.
pub open spec fn race_views(races: Seq<Race>) -> Seq<Seq<Marker>> {
    races.map_values(|r: Race| r@)
}

impl Tree {
    /// Does the tree consist of nothing but an unexpanded root?
    pub closed spec fn is_single_root(&self) -> bool {
        self.nodes@.len() == 1 && self.nodes@[0].is_leaf_spec()
    }

    /// The race at the root.
    pub closed spec fn root_race(&self) -> Seq<Marker> {
        self.nodes@[0].race@
    }

    /// The races at the leaves, in arena order.
    pub closed spec fn leaves(&self) -> Seq<Seq<Marker>> {
        leaf_races_of(self.nodes@)
    }

    /// The tree that consists of one unexpanded root.
    pub fn singleton(value: Race) -> (t: Tree)
        ensures
            t.is_single_root(),
            t.root_race() == value@,
    {
        let root = Node::new(value);
        let mut nodes: Vec<Node> = Vec::new();
        nodes.push(root);
        Tree { nodes }
    }

    fn perform_on(&self, index: usize, roll: Roll) -> (r: Race)
        requires
            index < self.nodes@.len(),
        ensures
            r@ == spec_perform(self.nodes@[index as int].race@, roll.camel, face_steps(roll.face)),
    {
        self.nodes[index].race.perform(roll)
    }

    fn add_child(&mut self, index: usize, roll: Roll, race: Race) -> (ci: usize)
        requires
            index < old(self).nodes@.len(),
        ensures
            ci == old(self).nodes@.len(),
            final(self).nodes@.len() == old(self).nodes@.len() + 1,
            forall|j: int|
                0 <= j < old(self).nodes@.len() && j != index ==> final(self).nodes@[j] == old(
                    self,
                ).nodes@[j],
            final(self).nodes@[index as int].race == old(self).nodes@[index as int].race,
            final(self).nodes@[index as int].children@ == old(
                self,
            ).nodes@[index as int].children@.push((roll, old(self).nodes@.len() as usize)),
            final(self).nodes@[ci as int].race@ == race@,
            final(self).nodes@[ci as int].children@.len() == 0,
    {
        let child = Node::new(race);
        self.nodes.push(child);
        let child_index = self.nodes.len() - 1;
        self.nodes[index].register_child(roll, child_index);
        child_index
    }

    /// Expands the root with every possible sequence of draws from the pool.
    pub fn expand(&mut self, dice: &Dice)
        requires
            old(self).is_single_root(),
        ensures
            final(self).leaves() == spec_leaves(old(self).root_race(), dice@),
    {
        self.expand_node(0, dice);
        proof {
            assert(self.nodes@.skip(0) =~= self.nodes@);
        }
    }

    fn expand_node(&mut self, index: usize, dice: &Dice)
        requires
            index < old(self).nodes@.len(),
            index + 1 == old(self).nodes@.len(),
            old(self).nodes@[index as int].is_leaf_spec(),
        ensures
            final(self).nodes@.len() >= old(self).nodes@.len(),
            final(self).nodes@.subrange(0, index as int) == old(self).nodes@.subrange(
                0,
                index as int,
            ),
            final(self).nodes@[index as int].race == old(self).nodes@[index as int].race,
            leaf_races_of(final(self).nodes@.skip(index as int)) == spec_leaves(
                old(self).nodes@[index as int].race@,
                dice@,
            ),
        decreases dice@.len(), 0int,
    {
        proof {
            use_type_invariant(dice);
        }
        let ghost s0 = self.nodes@[index as int].race@;
        let ghost pool = dice@;
        let n_dice = dice.len();
        if n_dice == 0 {
            proof {
                let run = self.nodes@.skip(index as int);
                assert(run =~= seq![self.nodes@[index as int]]);
                assert(run.drop_last() =~= Seq::<Node>::empty());
                assert(leaf_races_of(Seq::<Node>::empty()) == Seq::<Seq<Marker>>::empty());
                assert(run.last() == self.nodes@[index as int]);
                assert(run.last().is_leaf_spec());
                assert(leaf_races_of(run) =~= seq![s0]);
                assert(self.nodes@.subrange(0, index as int) =~= self.nodes@.subrange(
                    0,
                    index as int,
                ));
            }
            return ;
        }
        let mut ci: usize = 0;
        while ci < n_dice
            invariant
                pool == dice@,
                pool.no_duplicates(),
                n_dice == pool.len(),
                ci <= n_dice,
                index < self.nodes@.len(),
                old(self).nodes@.len() == index + 1,
                self.nodes@.subrange(0, index as int + 1) =~= old(self).nodes@.subrange(
                    0,
                    index as int,
                ) + seq![self.nodes@[index as int]],
                self.nodes@.subrange(0, index as int) =~= old(self).nodes@.subrange(
                    0,
                    index as int,
                ),
                self.nodes@[index as int].race == old(self).nodes@[index as int].race,
                self.nodes@[index as int].race@ == s0,
                self.nodes@[index as int].children@.len() == 3 * ci,
                leaf_races_of(self.nodes@.skip(index as int + 1)) + spec_leaves_from(
                    s0,
                    pool,
                    ci as int,
                ) =~= spec_leaves_from(s0, pool, 0),
            decreases n_dice - ci,
        {
            let camel = dice.get(ci);
            let remaining = dice.remove(camel);
            proof {
                lemma_remove_camel_at(pool, camel, ci as int);
                assert(remaining@ == pool.remove(ci as int));
            }
            let ghost rest_pool = pool.remove(ci as int);
            let ghost nodes0 = self.nodes@;
            self.expand_leg(index, camel, Face::One, &remaining);
            let ghost nodes1 = self.nodes@;
            proof {
                assert(nodes1.skip(index as int + 1) =~= nodes0.skip(index as int + 1)
                    + nodes1.skip(nodes0.len() as int));
                lemma_leaf_races_add(
                    nodes0.skip(index as int + 1),
                    nodes1.skip(nodes0.len() as int),
                );
            }
            self.expand_leg(index, camel, Face::Two, &remaining);
            let ghost nodes2 = self.nodes@;
            proof {
                assert(nodes2.skip(index as int + 1) =~= nodes1.skip(index as int + 1)
                    + nodes2.skip(nodes1.len() as int));
                lemma_leaf_races_add(
                    nodes1.skip(index as int + 1),
                    nodes2.skip(nodes1.len() as int),
                );
            }
            self.expand_leg(index, camel, Face::Three, &remaining);
            let ghost nodes3 = self.nodes@;
            proof {
                assert(nodes3.skip(index as int + 1) =~= nodes2.skip(index as int + 1)
                    + nodes3.skip(nodes2.len() as int));
                lemma_leaf_races_add(
                    nodes2.skip(index as int + 1),
                    nodes3.skip(nodes2.len() as int),
                );
                assert(spec_leaves_from(s0, pool, ci as int) == spec_leaves(
                    spec_perform(s0, camel, 1),
                    rest_pool,
                ) + spec_leaves(spec_perform(s0, camel, 2), rest_pool) + spec_leaves(
                    spec_perform(s0, camel, 3),
                    rest_pool,
                ) + spec_leaves_from(s0, pool, ci as int + 1));
                assert(leaf_races_of(nodes3.skip(index as int + 1)) + spec_leaves_from(
                    s0,
                    pool,
                    ci as int + 1,
                ) =~= spec_leaves_from(s0, pool, 0));
            }
            ci += 1;
        }
        proof {
            assert(spec_leaves_from(s0, pool, n_dice as int) =~= Seq::<Seq<Marker>>::empty());
            assert(leaf_races_of(self.nodes@.skip(index as int + 1)) =~= spec_leaves_from(
                s0,
                pool,
                0,
            ));
            let run = self.nodes@.skip(index as int);
            assert(run =~= seq![self.nodes@[index as int]] + self.nodes@.skip(index as int + 1));
            lemma_leaf_races_add(
                seq![self.nodes@[index as int]],
                self.nodes@.skip(index as int + 1),
            );
            let head = seq![self.nodes@[index as int]];
            assert(head.drop_last() =~= Seq::<Node>::empty());
            assert(leaf_races_of(Seq::<Node>::empty()) == Seq::<Seq<Marker>>::empty());
            assert(head.last() == self.nodes@[index as int]);
            assert(head.last().children@.len() == 3 * n_dice);
            assert(!head.last().is_leaf_spec());
            assert(leaf_races_of(head) =~= Seq::<Seq<Marker>>::empty());
            assert(leaf_races_of(run) =~= spec_leaves(s0, pool));
        }
    }

    /// Expands one child: the race after rolling (camel, face), then the whole
    /// subtree below it for the remaining dice.
    fn expand_leg(&mut self, index: usize, camel: Camel, face: Face, remaining: &Dice)
        requires
            index < old(self).nodes@.len(),
        ensures
            final(self).nodes@.len() > old(self).nodes@.len(),
            final(self).nodes@.subrange(0, index as int) == old(self).nodes@.subrange(
                0,
                index as int,
            ),
            final(self).nodes@[index as int].race == old(self).nodes@[index as int].race,
            final(self).nodes@[index as int].children@.len() == old(
                self,
            ).nodes@[index as int].children@.len() + 1,
            final(self).nodes@.subrange(index as int + 1, old(self).nodes@.len() as int) == old(
                self,
            ).nodes@.subrange(index as int + 1, old(self).nodes@.len() as int),
            leaf_races_of(final(self).nodes@.skip(old(self).nodes@.len() as int)) == spec_leaves(
                spec_perform(old(self).nodes@[index as int].race@, camel, face_steps(face)),
                remaining@,
            ),
        decreases remaining@.len(), 1int,
    {
        let roll = Roll::new(camel, face);
        let race = self.perform_on(index, roll);
        let child_index = self.add_child(index, roll, race);
        let ghost mid = self.nodes@;
        self.expand_node(child_index, remaining);
        proof {
            let fin = self.nodes@;
            let start = old(self).nodes@;
            assert forall|j: int| 0 <= j < child_index implies fin[j] == #[trigger] mid[j] by {
                assert(fin.subrange(0, child_index as int)[j] == fin[j]);
                assert(mid.subrange(0, child_index as int)[j] == mid[j]);
            }
            assert(fin.subrange(0, index as int) =~= start.subrange(0, index as int));
            assert(fin.subrange(index as int + 1, start.len() as int) =~= start.subrange(
                index as int + 1,
                start.len() as int,
            ));
            assert(fin[index as int] == mid[index as int]);
        }
    }

    /// Calls the visitor once for every leaf, in arena order.
    pub fn visit_leaves<V: LeafVisitor>(&self, visitor: &mut V) {
        let n = self.nodes.len();
        let mut i: usize = 0;
        while i < n
            invariant
                n == self.nodes@.len(),
                i <= n,
            decreases n - i,
        {
            if self.nodes[i].is_leaf() {
                visitor.visit(&self.nodes[i].race);
            }
            i += 1;
        }
    }

    /// The leaves' races, collected in arena order.
    pub fn leaf_list(&self) -> (r: Vec<Race>)
        ensures
            race_views(r@) == self.leaves(),
    {
        let n = self.nodes.len();
        let mut leaves: Vec<Race> = Vec::new();
        let mut i: usize = 0;
        while i < n
            invariant
                n == self.nodes@.len(),
                i <= n,
                race_views(leaves@) =~= leaf_races_of(self.nodes@.subrange(0, i as int)),
            decreases n - i,
        {
            let ghost prefix = self.nodes@.subrange(0, i as int);
            let ghost extended = self.nodes@.subrange(0, i as int + 1);
            proof {
                assert(extended.drop_last() =~= prefix);
            }
            if self.nodes[i].is_leaf() {
                leaves.push(self.nodes[i].race.clone());
            }
            proof {
                assert(race_views(leaves@) =~= leaf_races_of(extended));
            }
            i += 1;
        }
        proof {
            assert(self.nodes@.subrange(0, n as int) =~= self.nodes@);
        }
        leaves
    }
}

} // verus!
