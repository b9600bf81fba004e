//! The prefixes that a document declares.
use vstd::prelude::*;

verus! {

/// A map from prefixes to IRIs. No prefix occurs twice in it.
#[derive(Debug, Eq)]
pub struct PrefixMap {
    entries: Vec<(String, String)>,
}

/// The map that a sequence of pairs stands for.
pub open spec fn pairs_map(pairs: Seq<(String, String)>) -> Map<Seq<char>, Seq<char>>
    decreases pairs.len(),
{
    if pairs.len() == 0 {
        Map::empty()
    } else {
        pairs_map(pairs.drop_last()).insert(pairs.last().0@, pairs.last().1@)
    }
}

/// No two pairs have the same key.
pub open spec fn distinct_keys(pairs: Seq<(String, String)>) -> bool {
    forall|i: int, j: int|
        0 <= i < j < pairs.len() ==> (#[trigger] pairs[i]).0@ != (#[trigger] pairs[j]).0@
}

impl View for PrefixMap {
    type V = Map<Seq<char>, Seq<char>>;

    closed spec fn view(&self) -> Map<Seq<char>, Seq<char>> {
        pairs_map(self.entries@)
    }
}

/// A key is in the map exactly if some pair has it; with distinct keys, that pair has its value.
proof fn lemma_pairs_map(pairs: Seq<(String, String)>)
    ensures
        forall|i: int|
            0 <= i < pairs.len() ==> pairs_map(pairs).contains_key((#[trigger] pairs[i]).0@),
        forall|k: Seq<char>| #[trigger]
            pairs_map(pairs).contains_key(k) ==> exists|i: int|
                0 <= i < pairs.len() && (#[trigger] pairs[i]).0@ == k,
        distinct_keys(pairs) ==> forall|i: int|
            0 <= i < pairs.len() ==> pairs_map(pairs)[(#[trigger] pairs[i]).0@] == pairs[i].1@,
    decreases pairs.len(),
{
    if pairs.len() > 0 {
        let front = pairs.drop_last();
        lemma_pairs_map(front);
        assert forall|i: int| 0 <= i < pairs.len() implies pairs_map(pairs).contains_key(
            (#[trigger] pairs[i]).0@,
        ) by {
            if i < front.len() {
                assert(front[i] == pairs[i]);
            }
        }
        assert forall|k: Seq<char>| #[trigger] pairs_map(pairs).contains_key(k) implies exists|
            i: int,
        |
            0 <= i < pairs.len() && (#[trigger] pairs[i]).0@ == k by {
            if k == pairs.last().0@ {
                assert(pairs[pairs.len() - 1].0@ == k);
            } else {
                let i = choose|i: int| 0 <= i < front.len() && (#[trigger] front[i]).0@ == k;
                assert(pairs[i].0@ == k);
            }
        }
        if distinct_keys(pairs) {
            assert(distinct_keys(front)) by {
                assert forall|i: int, j: int| 0 <= i < j < front.len() implies (
                #[trigger] front[i]).0@ != (#[trigger] front[j]).0@ by {
                    assert(front[i] == pairs[i] && front[j] == pairs[j]);
                }
            }
            assert forall|i: int| 0 <= i < pairs.len() implies pairs_map(pairs)[(
            #[trigger] pairs[i]).0@] == pairs[i].1@ by {
                if i < front.len() {
                    assert(front[i] == pairs[i]);
                    assert(pairs[i].0@ != pairs[pairs.len() - 1].0@);
                }
            }
        }
    }
}

impl PrefixMap {
    #[verifier::type_invariant]
    closed spec fn inv(self) -> bool {
        distinct_keys(self.entries@)
    }

    /// The map without any prefix.
    pub fn new() -> (r: PrefixMap)
        ensures
            r@ == Map::<Seq<char>, Seq<char>>::empty(),
    {
        PrefixMap { entries: Vec::new() }
    }

    /// The index of the pair with the given key, or the number of pairs.
    fn position(pairs: &Vec<(String, String)>, prefix: &String) -> (r: usize)
        ensures
            r <= pairs@.len(),
            r < pairs@.len() ==> pairs@[r as int].0@ == prefix@,
            forall|j: int| 0 <= j < r ==> (#[trigger] pairs@[j]).0@ != prefix@,
    {
        let mut i: usize = 0;
        while i < pairs.len()
            invariant
                i <= pairs@.len(),
                forall|j: int| 0 <= j < i ==> (#[trigger] pairs@[j]).0@ != prefix@,
            decreases pairs.len() - i,
        {
            if pairs[i].0 == *prefix {
                return i;
            }
            i += 1;
        }
        i
    }

    /// The IRI that a prefix stands for.
    pub fn get(&self, prefix: &String) -> (r: Option<&String>)
        ensures
            match r {
                Some(iri) => self@.contains_key(prefix@) && self@[prefix@] == iri@,
                None => !self@.contains_key(prefix@),
            },
    {
        proof {
            use_type_invariant(self);
            lemma_pairs_map(self.entries@);
        }
        let i = Self::position(&self.entries, prefix);
        if i < self.entries.len() {
            Some(&self.entries[i].1)
        } else {
            None
        }
    }

    /// Declares a prefix; an earlier declaration of the same prefix is replaced.
    pub fn insert(&mut self, prefix: String, iri: String)
        ensures
            final(self)@ == old(self)@.insert(prefix@, iri@),
    {
        proof {
            use_type_invariant(&*self);
        }
        let mut entries: Vec<(String, String)> = Vec::new();
        std::mem::swap(&mut entries, &mut self.entries);
        let ghost before = entries@;
        let i = Self::position(&entries, &prefix);
        let ghost key = prefix@;
        let ghost value = iri@;
        if i < entries.len() {
            entries.set(i, (prefix, iri));
        } else {
            entries.push((prefix, iri));
            assert(entries@.drop_last() =~= before);
        }
        proof {
            lemma_pairs_map(before);
            lemma_pairs_map(entries@);
            let m = pairs_map(entries@);
            let n = pairs_map(before).insert(key, value);
            assert(entries@[i as int].0@ == key);
            assert(distinct_keys(entries@));
            assert forall|k: Seq<char>| m.contains_key(k) <==> n.contains_key(k) by {
                if m.contains_key(k) && k != key {
                    let j = choose|j: int|
                        0 <= j < entries@.len() && (#[trigger] entries@[j]).0@ == k;
                    assert(before[j].0@ == k);
                }
                if n.contains_key(k) && k != key {
                    let j = choose|j: int| 0 <= j < before.len() && (#[trigger] before[j]).0@ == k;
                    assert(entries@[j].0@ == k);
                }
            }
            assert forall|k: Seq<char>| m.contains_key(k) implies m[k] == n[k] by {
                let j = choose|j: int| 0 <= j < entries@.len() && (#[trigger] entries@[j]).0@ == k;
                if j != i {
                    assert(before[j] == entries@[j]);
                }
            }
            assert(m =~= n);
        }
        self.entries = entries;
    }

    /// Declares all prefixes of `other`.
    pub fn extend(&mut self, other: &PrefixMap)
        ensures
            final(self)@ == old(self)@.union_prefer_right(other@),
    {
        let ghost start = self@;
        let n: usize = other.entries.len();
        assert(start.union_prefer_right(pairs_map(other.entries@.take(0))) =~= start);
        for i in 0..n
            invariant
                n == other.entries@.len(),
                self@ == start.union_prefer_right(pairs_map(other.entries@.take(i as int))),
        {
            let ghost front = other.entries@.take(i as int);
            assert(other.entries@.take(i + 1).drop_last() =~= front);
            self.insert(other.entries[i].0.clone(), other.entries[i].1.clone());
            assert(self@ =~= start.union_prefer_right(
                pairs_map(other.entries@.take(i + 1)),
            ));
        }
        assert(other.entries@.take(n as int) =~= other.entries@);
    }

    /// The declarations, each prefix with its IRI.
    pub fn entries(&self) -> (r: &Vec<(String, String)>)
        ensures
            pairs_map(r@) == self@,
            distinct_keys(r@),
    {
        proof {
            use_type_invariant(self);
        }
        &self.entries
    }
}

impl PrefixMap {
    /// Whether `other` has all declarations of this map.
    fn is_part_of(&self, other: &PrefixMap) -> (r: bool)
        ensures
            r == self@.submap_of(other@),
    {
        proof {
            use_type_invariant(self);
            lemma_pairs_map(self.entries@);
        }
        for i in 0..self.entries.len()
            invariant
                distinct_keys(self.entries@),
                forall|j: int|
                    0 <= j < self.entries@.len() ==> self@.contains_key(
                        (#[trigger] self.entries@[j]).0@,
                    ) && self@[self.entries@[j].0@] == self.entries@[j].1@,
                forall|j: int|
                    0 <= j < i ==> other@.contains_key((#[trigger] self.entries@[j]).0@)
                        && other@[self.entries@[j].0@] == self.entries@[j].1@,
        {
            let ghost key = self.entries@[i as int].0@;
            let same = match other.get(&self.entries[i].0) {
                Some(iri) => *iri == self.entries[i].1,
                None => false,
            };
            if !same {
                assert(self@.contains_key(key));
                return false;
            }
        }
        assert forall|k: Seq<char>| #[trigger] self@.contains_key(k) implies other@.contains_key(k)
            && self@[k] == other@[k] by {
            let j = choose|j: int|
                0 <= j < self.entries@.len() && (#[trigger] self.entries@[j]).0@ == k;
        }
        true
    }
}

impl PartialEq for PrefixMap {
    fn eq(&self, other: &PrefixMap) -> (r: bool) {
        let r = self.is_part_of(other) && other.is_part_of(self);
        proof {
            if r {
                assert forall|k: Seq<char>| self@.contains_key(k) <==> other@.contains_key(k) by {
                    assert(self@.dom().contains(k) <==> other@.dom().contains(k));
                }
                assert(self@ =~= other@);
            }
        }
        r
    }
}

impl vstd::std_specs::cmp::PartialEqSpecImpl for PrefixMap {
    open spec fn obeys_eq_spec() -> bool {
        true
    }

    /// The order in which prefixes were declared does not matter.
    open spec fn eq_spec(&self, other: &PrefixMap) -> bool {
        self@ == other@
    }
}

} // verus!
