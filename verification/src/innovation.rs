use crate::node::Node;
use std::collections::HashMap;
use vstd::prelude::*;

verus! {

/// Key under which the pair `(a, b)` is stored: `a * 2^64 + b`.
pub open spec fn pair_key(a: usize, b: usize) -> u128 {
    (a as u128 * 0x1_0000_0000_0000_0000u128 + b as u128) as u128
}

/// Two different pairs never share a key.
pub proof fn lemma_pair_key_injective(a: usize, b: usize, c: usize, d: usize)
    ensures
        pair_key(a, b) == pair_key(c, d) <==> (a == c && b == d),
{
}

fn key_of(a: usize, b: usize) -> (k: u128)
    ensures
        k == pair_key(a, b),
{
    (a as u128) * 0x1_0000_0000_0000_0000u128 + (b as u128)
}

/// What a registry maps after `pair` has been looked up in a registry that
/// maps `map` and would hand out `next` to a new pair.
pub open spec fn lookup_map(
    map: Map<(usize, usize), usize>,
    next: usize,
    pair: (usize, usize),
) -> Map<(usize, usize), usize> {
    if map.contains_key(pair) {
        map
    } else {
        map.insert(pair, next)
    }
}

/// The number that a lookup of `pair` returns in such a registry.
pub open spec fn lookup_value(
    map: Map<(usize, usize), usize>,
    next: usize,
    pair: (usize, usize),
) -> usize {
    if map.contains_key(pair) {
        map[pair]
    } else {
        next
    }
}

/// The number that the registry hands out to the next new pair after that lookup.
pub open spec fn lookup_next(
    map: Map<(usize, usize), usize>,
    next: usize,
    pair: (usize, usize),
) -> int {
    if map.contains_key(pair) {
        next as int
    } else {
        next + 1
    }
}

/// A registry is consistent when every number it has handed out is below the
/// next free one and no number was handed out to two pairs.
pub open spec fn registry_consistent(map: Map<(usize, usize), usize>, next: usize) -> bool {
    &&& forall|p: (usize, usize)| #[trigger] map.contains_key(p) ==> map[p] < next
    &&& forall|p: (usize, usize), q: (usize, usize)|
        #[trigger] map.contains_key(p) && #[trigger] map.contains_key(q) && map[p] == map[q] ==> p
            == q
}

/// Registry of innovation numbers over raw node indices: each pair
/// `(in, out)` gets the next unused number the first time it is asked for,
/// and that same number ever after.
pub struct InnovationDatabase {
    db: HashMap<u128, usize>,
}

impl View for InnovationDatabase {
    type V = Map<(usize, usize), usize>;

    closed spec fn view(&self) -> Map<(usize, usize), usize> {
        Map::new(
            |p: (usize, usize)| self.db@.contains_key(pair_key(p.0, p.1)),
            |p: (usize, usize)| self.db@[pair_key(p.0, p.1)],
        )
    }
}

impl InnovationDatabase {
    /// The number that the next new pair will get: the number of pairs on
    /// record.
    pub closed spec fn next(&self) -> usize {
        self.db@.len() as usize
    }

    /// The invariant of the registry.
    pub closed spec fn well_formed(&self) -> bool {
        &&& self.db@.len() <= usize::MAX
        &&& registry_consistent(self@, self.next())
    }

    /// A well-formed registry is consistent.
    pub proof fn lemma_consistent(&self)
        requires
            self.well_formed(),
        ensures
            registry_consistent(self@, self.next()),
    {
    }

    /// An empty registry, whose first number is 0.
    pub fn new() -> (r: Self)
        ensures
            r@ == Map::<(usize, usize), usize>::empty(),
            r.next() == 0,
            r.well_formed(),
    {
        let r = InnovationDatabase { db: HashMap::new() };
        assert(r@ =~= Map::<(usize, usize), usize>::empty());
        r
    }

    /// The number on record for the connection from `in_neuron` to
    /// `out_neuron`, if there is one. The registry stays as it is.
    pub fn lookup(&self, in_neuron: usize, out_neuron: usize) -> (r: Option<usize>)
        ensures
            r == if self@.contains_key((in_neuron, out_neuron)) {
                Some(self@[(in_neuron, out_neuron)])
            } else {
                None
            },
    {
        let key = key_of(in_neuron, out_neuron);
        match self.db.get(&key) {
            Some(number) => Some(*number),
            None => None,
        }
    }

    /// The innovation number of the connection from `in_neuron` to
    /// `out_neuron`: the stored one if the pair was seen before, else the
    /// next free number, which is then recorded.
    pub fn get(&mut self, in_neuron: usize, out_neuron: usize) -> (r: usize)
        requires
            old(self).well_formed(),
        ensures
            final(self).well_formed(),
            r == lookup_value(old(self)@, old(self).next(), (in_neuron, out_neuron)),
            final(self)@ == lookup_map(old(self)@, old(self).next(), (in_neuron, out_neuron)),
            final(self).next() == lookup_next(
                old(self)@,
                old(self).next(),
                (in_neuron, out_neuron),
            ),
    {
        let key = key_of(in_neuron, out_neuron);
        let found = self.db.get(&key);
        match found {
            Some(number) => *number,
            None => {
                let number = self.db.len();
                self.db.insert(key, number);
                let count = self.db.len();
                proof {
                    assert(count == number + 1);
                    let pair = (in_neuron, out_neuron);
                    assert(self.db@ == old(self).db@.insert(key, number));
                    assert(self@ =~= old(self)@.insert(pair, number)) by {
                        assert forall|p: (usize, usize)|
                            self@.contains_key(p) == old(self)@.insert(pair, number).contains_key(
                                p,
                            ) by {
                            lemma_pair_key_injective(p.0, p.1, in_neuron, out_neuron);
                        }
                        assert forall|p: (usize, usize)| self@.contains_key(p) implies self@[p]
                            == old(self)@.insert(pair, number)[p] by {
                            lemma_pair_key_injective(p.0, p.1, in_neuron, out_neuron);
                        }
                    }
                    assert forall|p: (usize, usize), q: (usize, usize)|
                        #[trigger] self@.contains_key(p) && #[trigger] self@.contains_key(q)
                            && self@[p] == self@[q] implies p == q by {
                        if p != pair {
                            assert(old(self)@.contains_key(p));
                        }
                        if q != pair {
                            assert(old(self)@.contains_key(q));
                        }
                    }
                    assert forall|p: (usize, usize)| #[trigger]
                        self@.contains_key(p) implies self@[p] < self.next() by {
                        if p != pair {
                            assert(old(self)@.contains_key(p));
                        }
                    }
                }
                number
            },
        }
    }
}

impl Default for InnovationDatabase {
    fn default() -> (r: Self)
        ensures
            r@ == Map::<(usize, usize), usize>::empty(),
            r.next() == 0,
            r.well_formed(),
    {
        InnovationDatabase::new()
    }
}

/// Registry of innovation numbers for the nodes of one
/// `(INPUT_SZ, OUTPUT_SZ)` family. One instance serves a whole evolutionary
/// run, so that the same connection found in two lineages carries the same
/// number.
pub struct InnovationRecord<const INPUT_SZ: usize, const OUTPUT_SZ: usize> {
    numbers: InnovationDatabase,
}

impl<const INPUT_SZ: usize, const OUTPUT_SZ: usize> View for InnovationRecord<INPUT_SZ, OUTPUT_SZ> {
    type V = Map<(usize, usize), usize>;

    closed spec fn view(&self) -> Map<(usize, usize), usize> {
        self.numbers@
    }
}

impl<const INPUT_SZ: usize, const OUTPUT_SZ: usize> InnovationRecord<INPUT_SZ, OUTPUT_SZ> {
    /// The number that the next new pair will get.
    pub closed spec fn next(&self) -> usize {
        self.numbers.next()
    }

    /// The invariant of the record.
    pub closed spec fn well_formed(&self) -> bool {
        self.numbers.well_formed()
    }

    /// A well-formed registry is consistent.
    pub proof fn lemma_consistent(&self)
        requires
            self.well_formed(),
        ensures
            registry_consistent(self@, self.next()),
    {
        self.numbers.lemma_consistent();
    }

    /// An empty record, whose first number is 0.
    pub fn new() -> (r: Self)
        ensures
            r@ == Map::<(usize, usize), usize>::empty(),
            r.next() == 0,
            r.well_formed(),
    {
        InnovationRecord { numbers: InnovationDatabase::new() }
    }

    /// The number on record for the connection from `in_node` to
    /// `out_node`, if there is one. The record stays as it is.
    pub fn lookup(
        &self,
        in_node: Node<INPUT_SZ, OUTPUT_SZ>,
        out_node: Node<INPUT_SZ, OUTPUT_SZ>,
    ) -> (r: Option<usize>)
        ensures
            r == if self@.contains_key((in_node.0, out_node.0)) {
                Some(self@[(in_node.0, out_node.0)])
            } else {
                None
            },
    {
        self.numbers.lookup(in_node.0, out_node.0)
    }

    /// The innovation number of the connection from `in_node` to `out_node`:
    /// the stored one if the pair was seen before, else the next free
    /// number, which is then recorded.
    pub fn get(&mut self, in_node: Node<INPUT_SZ, OUTPUT_SZ>, out_node: Node<INPUT_SZ, OUTPUT_SZ>) -> (r: usize)
        requires
            old(self).well_formed(),
        ensures
            final(self).well_formed(),
            r == lookup_value(old(self)@, old(self).next(), (in_node.0, out_node.0)),
            final(self)@ == lookup_map(old(self)@, old(self).next(), (in_node.0, out_node.0)),
            final(self).next() == lookup_next(old(self)@, old(self).next(), (in_node.0, out_node.0)),
    {
        self.numbers.get(in_node.0, out_node.0)
    }
}

impl<const INPUT_SZ: usize, const OUTPUT_SZ: usize> Default for InnovationRecord<INPUT_SZ, OUTPUT_SZ> {
    fn default() -> (r: Self)
        ensures
            r@ == Map::<(usize, usize), usize>::empty(),
            r.next() == 0,
            r.well_formed(),
    {
        InnovationRecord::new()
    }
}

/// `later` answers every pair that `earlier` knows with the same number.
pub open spec fn extends(
    later: Map<(usize, usize), usize>,
    earlier: Map<(usize, usize), usize>,
) -> bool {
    forall|p: (usize, usize)| #[trigger]
        earlier.contains_key(p) ==> later.contains_key(p) && later[p] == earlier[p]
}

/// A lookup is a function of the pair: asking for the same pair a second
/// time, whatever other pair was asked for in between, returns the number of
/// the first time and records nothing new for it. A lookup also never
/// changes the number of a pair that is already recorded, and keeps the
/// registry consistent.
pub proof fn lemma_lookup_is_stable(
    map: Map<(usize, usize), usize>,
    next: usize,
    pair: (usize, usize),
    between: (usize, usize),
)
    requires
        registry_consistent(map, next),
        next < usize::MAX,
    ensures
        ({
            let first = lookup_value(map, next, pair);
            let map1 = lookup_map(map, next, pair);
            let next1 = lookup_next(map, next, pair) as usize;
            let map2 = lookup_map(map1, next1, between);
            let next2 = lookup_next(map1, next1, between) as usize;
            &&& lookup_value(map1, next1, pair) == first
            &&& lookup_map(map1, next1, pair) == map1
            &&& lookup_value(map2, next2, pair) == first
            &&& extends(map1, map)
            &&& extends(map2, map1)
            &&& registry_consistent(map1, next1)
        }),
{
    let map1 = lookup_map(map, next, pair);
    let next1 = lookup_next(map, next, pair) as usize;
    assert forall|p: (usize, usize), q: (usize, usize)|
        #[trigger] map1.contains_key(p) && #[trigger] map1.contains_key(q) && map1[p]
            == map1[q] implies p == q by {
        if p != pair {
            assert(map.contains_key(p));
        }
        if q != pair {
            assert(map.contains_key(q));
        }
    }
}

/// Two different connections never share an innovation number, and two
/// lookups that return the same number asked for the same pair.
pub proof fn lemma_numbers_identify_pairs(
    map: Map<(usize, usize), usize>,
    next: usize,
    p: (usize, usize),
    q: (usize, usize),
)
    requires
        registry_consistent(map, next),
        map.contains_key(p),
        map.contains_key(q),
    ensures
        map[p] == map[q] <==> p == q,
{
}

} // verus!
