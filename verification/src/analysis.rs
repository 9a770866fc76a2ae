//! The reaching-definitions solver.
//!
//! A simplified syntax tree whose top level is the flat equation list is
//! read as a system of set equations over the lattice of finite sets of
//! definition identifiers.  The solver seeds every left-hand side with the
//! empty set and re-evaluates every equation, in source order and writing
//! each result back into the map it reads from, until a whole pass changes
//! nothing.  The specification-level functions [`eval`], [`pass_result`] and
//! [`iter_map`] say exactly what one evaluation, one pass and the k-th
//! iterate are; the solver's contract ties its result to them.

use vstd::prelude::*;
use vstd::seq_lib::lemma_seq_contains_after_push;

use crate::node::is_collapsible;
use crate::node::lemma_simplify_children_index;
use crate::node::simplify_children;
use crate::node::spec_simplify;
use crate::parser::is_def_leaf;
use crate::parser::wf_equation;
use crate::parser::wf_expr;
use crate::parser::Node;
use crate::parser::NodeType;
use crate::parser::NodeView;
use crate::parser::lemma_nodes_view_index;

verus! {

broadcast use
    vstd::seq_lib::group_seq_properties,
    vstd::prelude::Seq::lemma_push_to_set_commute,
    vstd::prelude::Seq::lemma_to_set_insert_commutes,
    vstd::seq_lib::seq_to_set_is_finite;

/// The names of a sequence of identifier strings.
pub open spec fn names_of(items: Seq<String>) -> Seq<Seq<char>> {
    items.map_values(|s: String| s@)
}

/// A finite set of definition identifiers, held as a duplicate-free list of
/// strings.  Its mathematical value is the set of the identifiers.
pub struct DefSet {
    items: Vec<String>,
}

impl View for DefSet {
    type V = Set<Seq<char>>;

    closed spec fn view(&self) -> Set<Seq<char>> {
        names_of(self.items@).to_set()
    }
}

impl DefSet {
    /// The list holds no identifier twice.
    pub closed spec fn wf(&self) -> bool {
        names_of(self.items@).no_duplicates()
    }

    pub fn new() -> (r: DefSet)
        ensures
            r@ == Set::<Seq<char>>::empty(),
            r.wf(),
    {
        let r = DefSet { items: Vec::new() };
        proof {
            assert(names_of(r.items@) =~= Seq::<Seq<char>>::empty());
            assert(r@ =~= Set::<Seq<char>>::empty());
        }
        r
    }

    /// The set holding exactly one identifier.
    pub fn singleton(name: &String) -> (r: DefSet)
        ensures
            r@ == Set::<Seq<char>>::empty().insert(name@),
            r.wf(),
    {
        let mut items: Vec<String> = Vec::new();
        items.push(name.clone());
        let r = DefSet { items };
        proof {
            assert(names_of(r.items@) =~= seq![name@]);
            assert(r@ =~= Set::<Seq<char>>::empty().insert(name@));
        }
        r
    }

    /// Whether the set holds `name`.
    pub fn contains(&self, name: &String) -> (r: bool)
        ensures
            r == self@.contains(name@),
    {
        let ghost ns = names_of(self.items@);
        let n = self.items.len();
        let mut i: usize = 0;
        loop
            invariant
                i <= n,
                n == self.items@.len(),
                ns == names_of(self.items@),
                ns.len() == n,
                forall|j: int| 0 <= j < i ==> ns[j] != name@,
            ensures
                (exists|j: int| 0 <= j < ns.len() && ns[j] == name@) == (i < n),
            decreases n - i,
        {
            if i >= n {
                proof {
                    assert forall|j: int| 0 <= j < ns.len() implies ns[j] != name@ by {}
                }
                break ;
            }
            if self.items[i] == *name {
                proof {
                    assert(ns[i as int] == name@);
                }
                break ;
            }
            i = i + 1;
        }
        proof {
            if exists|j: int| 0 <= j < ns.len() && ns[j] == name@ {
                let j = choose|j: int| 0 <= j < ns.len() && ns[j] == name@;
                assert(ns.contains(name@));
            }
            if ns.contains(name@) {
                let j = choose|j: int| 0 <= j < ns.len() && ns[j] == name@;
            }
        }
        i < n
    }

    /// An exact copy of this set.
    pub fn duplicate(&self) -> (r: DefSet)
        ensures
            r@ == self@,
            r.wf() == self.wf(),
    {
        let n = self.items.len();
        let mut items: Vec<String> = Vec::new();
        for i in 0..n
            invariant
                n == self.items@.len(),
                names_of(items@) == names_of(self.items@).subrange(0, i as int),
        {
            let ghost before = items@;
            items.push(self.items[i].clone());
            proof {
                assert(names_of(items@) =~= names_of(before).push(self.items@[i as int]@));
                assert(names_of(self.items@).subrange(0, i + 1) =~= names_of(
                    self.items@,
                ).subrange(0, i as int).push(names_of(self.items@)[i as int]));
            }
        }
        let r = DefSet { items };
        proof {
            assert(names_of(self.items@).subrange(0, n as int) =~= names_of(self.items@));
        }
        r
    }

    /// The union of two sets.
    pub fn union(&self, other: &DefSet) -> (r: DefSet)
        requires
            self.wf(),
        ensures
            r@ == self@.union(other@),
            r.wf(),
    {
        let mut result = self.duplicate();
        let n = other.items.len();
        for i in 0..n
            invariant
                n == other.items@.len(),
                result.wf(),
                result@ =~= self@.union(names_of(other.items@).subrange(0, i as int).to_set()),
        {
            let ghost before = result.items@;
            if !result.contains(&other.items[i]) {
                result.items.push(other.items[i].clone());
                proof {
                    assert(names_of(result.items@) =~= names_of(before).push(other.items@[i as int]@));
                    lemma_seq_contains_after_push(names_of(before), other.items@[i as int]@, other.items@[i as int]@);
                    assert forall|x: Seq<char>| names_of(result.items@).contains(x) implies
                        names_of(before).contains(x) || x == other.items@[i as int]@ by {
                        let j = choose|j: int| 0 <= j < names_of(result.items@).len() && names_of(result.items@)[j] == x;
                        if j < names_of(before).len() {
                            assert(names_of(before)[j] == x);
                        }
                    }
                    assert(names_of(result.items@).no_duplicates());
                    assert(names_of(result.items@).to_set() =~= names_of(before).to_set().insert(
                        other.items@[i as int]@,
                    ));
                }
            }
            proof {
                assert(names_of(other.items@).subrange(0, i + 1) =~= names_of(
                    other.items@,
                ).subrange(0, i as int).push(other.items@[i as int]@));
                assert(names_of(other.items@).subrange(0, i + 1).to_set() =~= names_of(
                    other.items@,
                ).subrange(0, i as int).to_set().insert(other.items@[i as int]@));
                assert(result@ =~= self@.union(
                    names_of(other.items@).subrange(0, i + 1).to_set(),
                ));
            }
        }
        proof {
            assert(names_of(other.items@).subrange(0, n as int) =~= names_of(other.items@));
            assert(result@ =~= self@.union(other@));
        }
        result
    }

    /// The elements of this set that are not in `other`.
    pub fn difference(&self, other: &DefSet) -> (r: DefSet)
        requires
            self.wf(),
        ensures
            r@ == self@.difference(other@),
            r.wf(),
    {
        let n = self.items.len();
        let mut items: Vec<String> = Vec::new();
        for i in 0..n
            invariant
                n == self.items@.len(),
                self.wf(),
                names_of(items@).no_duplicates(),
                names_of(items@).to_set() =~= names_of(self.items@).subrange(
                    0,
                    i as int,
                ).to_set().difference(other@),
                forall|x: Seq<char>| #[trigger]
                    names_of(items@).contains(x) ==> names_of(self.items@).subrange(
                        0,
                        i as int,
                    ).contains(x),
        {
            let ghost before = items@;
            if !other.contains(&self.items[i]) {
                items.push(self.items[i].clone());
                proof {
                    assert(names_of(items@) =~= names_of(before).push(self.items@[i as int]@));
                    assert forall|x: Seq<char>| names_of(items@).contains(x) implies
                        names_of(before).contains(x) || x == self.items@[i as int]@ by {
                        let j = choose|j: int| 0 <= j < names_of(items@).len() && names_of(items@)[j] == x;
                        if j < names_of(before).len() {
                            assert(names_of(before)[j] == x);
                        }
                    }
                    assert(!names_of(before).contains(self.items@[i as int]@)) by {
                        if names_of(before).contains(self.items@[i as int]@) {
                            let j = choose|j: int|
                                0 <= j < names_of(before).len() && names_of(before)[j]
                                    == self.items@[i as int]@;
                            assert(names_of(self.items@).subrange(0, i as int).contains(
                                self.items@[i as int]@,
                            ));
                            let j2 = choose|j2: int|
                                0 <= j2 < i && names_of(self.items@).subrange(0, i as int)[j2]
                                    == self.items@[i as int]@;
                            assert(names_of(self.items@)[j2] == names_of(self.items@)[i as int]);
                        }
                    }
                    assert(names_of(items@).no_duplicates());
                }
            }
            proof {
                assert(names_of(self.items@).subrange(0, i + 1) =~= names_of(
                    self.items@,
                ).subrange(0, i as int).push(self.items@[i as int]@));
                assert(names_of(self.items@).subrange(0, i + 1).to_set() =~= names_of(
                    self.items@,
                ).subrange(0, i as int).to_set().insert(self.items@[i as int]@));
                assert(names_of(items@).to_set() =~= names_of(self.items@).subrange(
                    0,
                    i + 1,
                ).to_set().difference(other@));
                assert forall|x: Seq<char>| #[trigger] names_of(items@).contains(x) implies
                    names_of(self.items@).subrange(0, i + 1).contains(x) by {
                    if names_of(before).contains(x) {
                        let j = choose|j: int|
                            0 <= j < i && names_of(self.items@).subrange(0, i as int)[j] == x;
                        assert(names_of(self.items@).subrange(0, i + 1)[j] == x);
                    } else {
                        assert(names_of(self.items@).subrange(0, i + 1)[i as int] == x);
                    }
                }
            }
        }
        let r = DefSet { items };
        proof {
            assert(names_of(self.items@).subrange(0, n as int) =~= names_of(self.items@));
            assert(r@ =~= self@.difference(other@));
        }
        r
    }

    /// Whether every element of this set is in `other`.
    pub fn is_subset_of(&self, other: &DefSet) -> (r: bool)
        ensures
            r == self@.subset_of(other@),
    {
        let n = self.items.len();
        let mut i: usize = 0;
        loop
            invariant
                i <= n,
                n == self.items@.len(),
                forall|j: int| 0 <= j < i ==> other@.contains(names_of(self.items@)[j]),
            ensures
                (i >= n) == self@.subset_of(other@),
            decreases n - i,
        {
            if i >= n {
                proof {
                    assert forall|x: Seq<char>| self@.contains(x) implies other@.contains(x) by {
                        let j = choose|j: int|
                            0 <= j < names_of(self.items@).len() && names_of(self.items@)[j] == x;
                    }
                }
                break ;
            }
            if !other.contains(&self.items[i]) {
                proof {
                    assert(names_of(self.items@).contains(names_of(self.items@)[i as int]));
                    assert(self@.contains(names_of(self.items@)[i as int]));
                }
                break ;
            }
            i = i + 1;
        }
        i >= n
    }

    /// Whether the two sets are equal.
    pub fn set_eq(&self, other: &DefSet) -> (r: bool)
        ensures
            r == (self@ == other@),
    {
        let forward = self.is_subset_of(other);
        let backward = other.is_subset_of(self);
        proof {
            if self@.subset_of(other@) && other@.subset_of(self@) {
                assert(self@ =~= other@);
            }
        }
        forward && backward
    }

    /// The identifiers of the set, as a list.
    pub fn to_vec(&self) -> (r: Vec<String>)
        ensures
            names_of(r@).to_set() == self@,
            self.wf() ==> names_of(r@).no_duplicates(),
    {
        let n = self.items.len();
        let mut items: Vec<String> = Vec::new();
        for i in 0..n
            invariant
                n == self.items@.len(),
                names_of(items@) == names_of(self.items@).subrange(0, i as int),
        {
            let ghost before = items@;
            items.push(self.items[i].clone());
            proof {
                assert(names_of(items@) =~= names_of(before).push(self.items@[i as int]@));
                assert(names_of(self.items@).subrange(0, i + 1) =~= names_of(
                    self.items@,
                ).subrange(0, i as int).push(names_of(self.items@)[i as int]));
            }
        }
        proof {
            assert(names_of(self.items@).subrange(0, n as int) =~= names_of(self.items@));
        }
        items
    }

    /// The number of identifiers in the set.
    pub fn len(&self) -> (r: usize)
        requires
            self.wf(),
        ensures
            r == self@.len(),
    {
        proof {
            names_of(self.items@).unique_seq_to_set();
        }
        self.items.len()
    }
}

/// The mapping built from an association list, later bindings overriding
/// earlier ones (the lists used here never bind a key twice).
pub open spec fn entries_map(s: Seq<(String, DefSet)>) -> Map<Seq<char>, Set<Seq<char>>>
    decreases s.len(),
{
    if s.len() == 0 {
        Map::empty()
    } else {
        entries_map(s.drop_last()).insert(s.last().0@, s.last().1@)
    }
}

/// The current solution: every data point identifier that appears as a
/// left-hand side, mapped to its current set of definition identifiers.
pub struct PointMap {
    entries: Vec<(String, DefSet)>,
}

impl View for PointMap {
    type V = Map<Seq<char>, Set<Seq<char>>>;

    closed spec fn view(&self) -> Map<Seq<char>, Set<Seq<char>>> {
        entries_map(self.entries@)
    }
}

/// No key is bound twice.
pub open spec fn unique_keys(s: Seq<(String, DefSet)>) -> bool {
    forall|i: int, j: int| 0 <= i < j < s.len() ==> s[i].0@ != s[j].0@
}

proof fn lemma_entries_map_props(s: Seq<(String, DefSet)>)
    requires
        unique_keys(s),
    ensures
        forall|k: Seq<char>| #[trigger]
            entries_map(s).dom().contains(k) ==> exists|i: int| 0 <= i < s.len() && s[i].0@ == k,
        forall|i: int|
            0 <= i < s.len() ==> entries_map(s).dom().contains(#[trigger] s[i].0@) && entries_map(
                s,
            )[s[i].0@] == s[i].1@,
    decreases s.len(),
{
    if s.len() > 0 {
        lemma_entries_map_props(s.drop_last());
        assert forall|i: int|
            0 <= i < s.len() implies entries_map(s).dom().contains(#[trigger] s[i].0@)
            && entries_map(s)[s[i].0@] == s[i].1@ by {
            if i < s.len() - 1 {
                assert(s.drop_last()[i] == s[i]);
                assert(s[i].0@ != s.last().0@);
            }
        }
        assert forall|k: Seq<char>| #[trigger] entries_map(s).dom().contains(k) implies exists|
            i: int,
        | 0 <= i < s.len() && s[i].0@ == k by {
            if k != s.last().0@ {
                assert(entries_map(s.drop_last()).dom().contains(k));
                let i = choose|i: int| 0 <= i < s.drop_last().len() && s.drop_last()[i].0@ == k;
                assert(s.drop_last()[i] == s[i]);
                assert(s[i].0@ == k);
            } else {
                assert(s[s.len() - 1].0@ == k);
            }
        }
    }
}

impl PointMap {
    /// Keys are unique and every stored set is well formed.
    pub closed spec fn wf(&self) -> bool {
        unique_keys(self.entries@) && forall|i: int|
            0 <= i < self.entries@.len() ==> (#[trigger] self.entries@[i].1).wf()
    }

    pub fn new() -> (r: PointMap)
        ensures
            r@ == Map::<Seq<char>, Set<Seq<char>>>::empty(),
            r.wf(),
    {
        PointMap { entries: Vec::new() }
    }

    /// The current set for `key`, or `None` when `key` is not a left-hand
    /// side of the system.
    pub fn get(&self, key: &String) -> (r: Option<&DefSet>)
        requires
            self.wf(),
        ensures
            match r {
                Some(v) => self@.dom().contains(key@) && v@ == self@[key@] && v.wf(),
                None => !self@.dom().contains(key@),
            },
    {
        proof {
            lemma_entries_map_props(self.entries@);
        }
        let n = self.entries.len();
        let mut i: usize = 0;
        loop
            invariant
                i <= n,
                n == self.entries@.len(),
                self.wf(),
                forall|j: int| 0 <= j < i ==> self.entries@[j].0@ != key@,
            ensures
                i <= n,
                n == self.entries@.len(),
                i < n ==> self.entries@[i as int].0@ == key@,
                i >= n ==> forall|j: int| 0 <= j < n ==> self.entries@[j].0@ != key@,
            decreases n - i,
        {
            if i >= n {
                break ;
            }
            if self.entries[i].0 == *key {
                break ;
            }
            i = i + 1;
        }
        if i < n {
            Some(&self.entries[i].1)
        } else {
            proof {
                if self@.dom().contains(key@) {
                    let j = choose|j: int|
                        0 <= j < self.entries@.len() && self.entries@[j].0@ == key@;
                }
            }
            None
        }
    }

    /// Replace the set bound to `key`, which must already be bound.
    pub fn update(&mut self, key: &String, val: DefSet)
        requires
            old(self).wf(),
            old(self)@.dom().contains(key@),
            val.wf(),
        ensures
            final(self).wf(),
            final(self)@ == old(self)@.insert(key@, val@),
            final(self)@.dom() == old(self)@.dom(),
    {
        proof {
            lemma_entries_map_props(self.entries@);
        }
        let n = self.entries.len();
        let mut i: usize = 0;
        loop
            invariant
                i <= n,
                n == self.entries@.len(),
                self.wf(),
                self@.dom().contains(key@),
                forall|j: int| 0 <= j < i ==> self.entries@[j].0@ != key@,
            ensures
                i < n,
                n == self.entries@.len(),
                self.entries@[i as int].0@ == key@,
            decreases n - i,
        {
            if i >= n {
                proof {
                    lemma_entries_map_props(self.entries@);
                    assert(entries_map(self.entries@).dom().contains(key@));
                    let j = choose|j: int|
                        0 <= j < self.entries@.len() && self.entries@[j].0@ == key@;
                }
                break ;
            }
            if self.entries[i].0 == *key {
                break ;
            }
            i = i + 1;
        }
        let ghost before = self.entries@;
        self.entries[i] = (key.clone(), val);
        proof {
            lemma_entries_map_update(before, i as int, self.entries@[i as int]);
            lemma_entries_map_props(before);
            assert(entries_map(self.entries@).dom() =~= entries_map(before).dom());
        }
    }

    /// Bind `key` to the empty set, whether or not it was bound before.
    pub fn insert_empty(&mut self, key: &String)
        requires
            old(self).wf(),
        ensures
            final(self).wf(),
            final(self)@ == old(self)@.insert(key@, Set::<Seq<char>>::empty()),
    {
        proof {
            lemma_entries_map_props(self.entries@);
        }
        let n = self.entries.len();
        let mut i: usize = 0;
        loop
            invariant
                i <= n,
                n == self.entries@.len(),
                self.wf(),
                forall|j: int| 0 <= j < i ==> self.entries@[j].0@ != key@,
            ensures
                i <= n,
                n == self.entries@.len(),
                i < n ==> self.entries@[i as int].0@ == key@,
                i >= n ==> forall|j: int| 0 <= j < n ==> self.entries@[j].0@ != key@,
            decreases n - i,
        {
            if i >= n {
                break ;
            }
            if self.entries[i].0 == *key {
                break ;
            }
            i = i + 1;
        }
        let ghost before = self.entries@;
        if i < n {
            self.entries[i] = (key.clone(), DefSet::new());
            proof {
                lemma_entries_map_update(before, i as int, self.entries@[i as int]);
            }
        } else {
            self.entries.push((key.clone(), DefSet::new()));
            proof {
                assert(self.entries@.drop_last() =~= before);
            }
        }
    }

    /// An exact copy of this solution mapping.
    pub fn duplicate(&self) -> (r: PointMap)
        requires
            self.wf(),
        ensures
            r@ == self@,
            r.wf(),
    {
        let n = self.entries.len();
        let mut entries: Vec<(String, DefSet)> = Vec::new();
        for i in 0..n
            invariant
                n == self.entries@.len(),
                self.wf(),
                entries@.len() == i,
                forall|j: int|
                    0 <= j < i ==> (#[trigger] entries@[j]).0@ == self.entries@[j].0@
                        && entries@[j].1@ == self.entries@[j].1@ && entries@[j].1.wf(),
                entries_map(entries@) == entries_map(self.entries@.subrange(0, i as int)),
        {
            let ghost before = entries@;
            entries.push((self.entries[i].0.clone(), self.entries[i].1.duplicate()));
            proof {
                assert(entries@.drop_last() =~= before);
                assert(self.entries@.subrange(0, i + 1).drop_last() =~= self.entries@.subrange(
                    0,
                    i as int,
                ));
            }
        }
        let r = PointMap { entries };
        proof {
            assert(self.entries@.subrange(0, n as int) =~= self.entries@);
            assert forall|i: int, j: int|
                0 <= i < j < r.entries@.len() implies r.entries@[i].0@ != r.entries@[j].0@ by {
                assert(r.entries@[i].0@ == self.entries@[i].0@);
                assert(r.entries@[j].0@ == self.entries@[j].0@);
            }
        }
        r
    }
}

proof fn lemma_entries_map_update(s: Seq<(String, DefSet)>, i: int, e: (String, DefSet))
    requires
        unique_keys(s),
        0 <= i < s.len(),
        e.0@ == s[i].0@,
    ensures
        entries_map(s.update(i, e)) == entries_map(s).insert(e.0@, e.1@),
    decreases s.len(),
{
    if i == s.len() - 1 {
        assert(s.update(i, e).drop_last() =~= s.drop_last());
        assert(s.update(i, e).last() == e);
        assert(entries_map(s.drop_last()).insert(s.last().0@, s.last().1@).insert(e.0@, e.1@)
            =~= entries_map(s.drop_last()).insert(e.0@, e.1@));
    } else {
        lemma_entries_map_update(s.drop_last(), i, e);
        assert(s.update(i, e).drop_last() =~= s.drop_last().update(i, e));
        assert(s.update(i, e).last() == s.last());
        assert(s.last().0@ != e.0@);
        assert(entries_map(s.drop_last()).insert(e.0@, e.1@).insert(s.last().0@, s.last().1@)
            =~= entries_map(s.drop_last()).insert(s.last().0@, s.last().1@).insert(e.0@, e.1@));
    }
}

/// The identifier a leaf node carries.
pub open spec fn name_of(v: NodeView) -> Seq<char> {
    v.token->0.text
}

/// The left-hand-side identifier of an equation node.
pub open spec fn lhs_name(eq: NodeView) -> Seq<char> {
    name_of(eq.children[0])
}

/// The right-hand-side expression of an equation node.
pub open spec fn rhs_of(eq: NodeView) -> NodeView {
    eq.children[1]
}

/// The shape an equation node must have for the solver to read it: two
/// children, the first a data point leaf carrying its token.
pub open spec fn eq_shape(v: NodeView) -> bool {
    &&& v.kind == NodeType::DataflowEquation
    &&& v.children.len() == 2
    &&& v.children[0].kind == NodeType::DataPoint
    &&& v.children[0].token is Some
}

/// The shape an expression must have for the solver to evaluate it: every
/// leaf carries its token and every operator node has its two operands.
pub open spec fn shaped(v: NodeView) -> bool
    decreases v,
{
    if v.kind == NodeType::DataPoint || v.kind == NodeType::Definition {
        v.token is Some
    } else if v.kind == NodeType::SetDifference || v.kind == NodeType::Union {
        v.children.len() == 2 && shaped(v.children[0]) && shaped(v.children[1])
    } else {
        shaped_children(v.children)
    }
}

pub open spec fn shaped_children(cs: Seq<NodeView>) -> bool
    decreases cs,
{
    if cs.len() == 0 {
        true
    } else {
        shaped(cs[0]) && shaped_children(cs.drop_first())
    }
}

/// What the solver requires of the tree it is given: every child of the top
/// node is an equation whose right-hand side it can evaluate.
pub open spec fn solvable(v: NodeView) -> bool {
    forall|i: int|
        0 <= i < v.children.len() ==> eq_shape(#[trigger] v.children[i]) && shaped(
            rhs_of(v.children[i]),
        )
}

/// The value of an expression under the solution `m`: a data point
/// reference reads its current set (`None` if it is not defined), a
/// definition is the singleton of its identifier, set difference and union
/// combine their operands, and any other node is the union of its children.
pub open spec fn eval(v: NodeView, m: Map<Seq<char>, Set<Seq<char>>>) -> Option<Set<Seq<char>>>
    decreases v,
{
    if v.kind == NodeType::DataPoint {
        if m.dom().contains(name_of(v)) {
            Some(m[name_of(v)])
        } else {
            None
        }
    } else if v.kind == NodeType::Definition {
        Some(Set::empty().insert(name_of(v)))
    } else if (v.kind == NodeType::SetDifference || v.kind == NodeType::Union)
        && v.children.len() == 2 {
        match (eval(v.children[0], m), eval(v.children[1], m)) {
            (Some(a), Some(b)) => if v.kind == NodeType::SetDifference {
                Some(a.difference(b))
            } else {
                Some(a.union(b))
            },
            _ => None,
        }
    } else {
        eval_children(v.children, m)
    }
}

/// The union of the values of a sequence of expressions.
pub open spec fn eval_children(cs: Seq<NodeView>, m: Map<Seq<char>, Set<Seq<char>>>) -> Option<
    Set<Seq<char>>,
>
    decreases cs,
{
    if cs.len() == 0 {
        Some(Set::empty())
    } else {
        match (eval(cs[0], m), eval_children(cs.drop_first(), m)) {
            (Some(a), Some(b)) => Some(a.union(b)),
            _ => None,
        }
    }
}

/// Whether every data point reference in `v` is defined in `dom`.
pub open spec fn refs_defined(v: NodeView, dom: Set<Seq<char>>) -> bool
    decreases v,
{
    if v.kind == NodeType::DataPoint {
        dom.contains(name_of(v))
    } else if v.kind == NodeType::Definition {
        true
    } else if (v.kind == NodeType::SetDifference || v.kind == NodeType::Union)
        && v.children.len() == 2 {
        refs_defined(v.children[0], dom) && refs_defined(v.children[1], dom)
    } else {
        refs_defined_children(v.children, dom)
    }
}

pub open spec fn refs_defined_children(cs: Seq<NodeView>, dom: Set<Seq<char>>) -> bool
    decreases cs,
{
    if cs.len() == 0 {
        true
    } else {
        refs_defined(cs[0], dom) && refs_defined_children(cs.drop_first(), dom)
    }
}

/// Evaluation succeeds exactly when every reference is defined.
proof fn lemma_eval_defined(v: NodeView, m: Map<Seq<char>, Set<Seq<char>>>)
    ensures
        (eval(v, m) is Some) == refs_defined(v, m.dom()),
    decreases v, 1int,
{
    if v.kind == NodeType::DataPoint || v.kind == NodeType::Definition {
    } else if (v.kind == NodeType::SetDifference || v.kind == NodeType::Union)
        && v.children.len() == 2 {
        lemma_eval_defined(v.children[0], m);
        lemma_eval_defined(v.children[1], m);
    } else {
        lemma_eval_children_defined(v.children, m);
    }
}

proof fn lemma_eval_children_defined(cs: Seq<NodeView>, m: Map<Seq<char>, Set<Seq<char>>>)
    ensures
        (eval_children(cs, m) is Some) == refs_defined_children(cs, m.dom()),
    decreases cs, 0int,
{
    if cs.len() > 0 {
        lemma_eval_defined(cs[0], m);
        lemma_eval_children_defined(cs.drop_first(), m);
    }
}

/// The mapping that seeds `m0` with the empty set for every left-hand side
/// of `eqs`, in order.
pub open spec fn init_from(eqs: Seq<NodeView>, m0: Map<Seq<char>, Set<Seq<char>>>) -> Map<
    Seq<char>,
    Set<Seq<char>>,
>
    decreases eqs.len(),
{
    if eqs.len() == 0 {
        m0
    } else {
        init_from(eqs.drop_last(), m0).insert(lhs_name(eqs.last()), Set::empty())
    }
}

/// The initial solution: every left-hand side of the system, seeded with
/// the empty set.
pub open spec fn init_map(eqs: Seq<NodeView>) -> Map<Seq<char>, Set<Seq<char>>> {
    init_from(eqs, Map::empty())
}

/// The initial solution binds exactly the left-hand sides.
proof fn lemma_init_from_dom(eqs: Seq<NodeView>, m0: Map<Seq<char>, Set<Seq<char>>>)
    ensures
        forall|i: int|
            0 <= i < eqs.len() ==> init_from(eqs, m0).dom().contains(
                lhs_name(#[trigger] eqs[i]),
            ),
        forall|k: Seq<char>| #[trigger]
            init_from(eqs, m0).dom().contains(k) ==> m0.dom().contains(k) || exists|i: int|
                0 <= i < eqs.len() && lhs_name(eqs[i]) == k,
    decreases eqs.len(),
{
    if eqs.len() > 0 {
        lemma_init_from_dom(eqs.drop_last(), m0);
        assert forall|i: int|
            0 <= i < eqs.len() implies init_from(eqs, m0).dom().contains(
            lhs_name(#[trigger] eqs[i]),
        ) by {
            if i < eqs.len() - 1 {
                assert(eqs.drop_last()[i] == eqs[i]);
            } else {
                assert(eqs.last() == eqs[i]);
            }
        }
        assert forall|k: Seq<char>| #[trigger] init_from(eqs, m0).dom().contains(k) implies
            m0.dom().contains(k) || exists|i: int| 0 <= i < eqs.len() && lhs_name(eqs[i]) == k by {
            if k == lhs_name(eqs.last()) {
                assert(lhs_name(eqs[eqs.len() - 1]) == k);
            } else {
                assert(init_from(eqs.drop_last(), m0).dom().contains(k));
                if !m0.dom().contains(k) {
                    let i = choose|i: int|
                        0 <= i < eqs.drop_last().len() && lhs_name(eqs.drop_last()[i]) == k;
                    assert(lhs_name(eqs[i]) == k);
                }
            }
        }
    }
}

/// One pass over the equations: each in turn is evaluated against the
/// current mapping and its left-hand side updated in place, so that later
/// equations in the same pass see the update.
pub open spec fn pass_result(eqs: Seq<NodeView>, m: Map<Seq<char>, Set<Seq<char>>>) -> Option<
    Map<Seq<char>, Set<Seq<char>>>,
>
    decreases eqs.len(),
{
    if eqs.len() == 0 {
        Some(m)
    } else {
        match eval(rhs_of(eqs[0]), m) {
            Some(s) => pass_result(eqs.drop_first(), m.insert(lhs_name(eqs[0]), s)),
            None => None,
        }
    }
}

/// The solution after `k` passes from the seeded initial mapping.
pub open spec fn iter_map(eqs: Seq<NodeView>, k: nat) -> Option<Map<Seq<char>, Set<Seq<char>>>>
    decreases k,
{
    if k == 0 {
        Some(init_map(eqs))
    } else {
        match iter_map(eqs, (k - 1) as nat) {
            Some(m) => pass_result(eqs, m),
            None => None,
        }
    }
}

/// Whether every reference of the system is defined among its left-hand
/// sides; exactly then does solving succeed rather than report an undefined
/// symbol.
pub open spec fn system_defined(eqs: Seq<NodeView>) -> bool {
    forall|i: int|
        0 <= i < eqs.len() ==> refs_defined(rhs_of(#[trigger] eqs[i]), init_map(eqs).dom())
}

/// A pass succeeds exactly when every reference is defined, and it binds
/// the same keys as the mapping it starts from.
proof fn lemma_pass_props(eqs: Seq<NodeView>, m: Map<Seq<char>, Set<Seq<char>>>)
    requires
        forall|i: int| 0 <= i < eqs.len() ==> m.dom().contains(lhs_name(#[trigger] eqs[i])),
    ensures
        (pass_result(eqs, m) is Some) == (forall|i: int|
            0 <= i < eqs.len() ==> refs_defined(rhs_of(#[trigger] eqs[i]), m.dom())),
        pass_result(eqs, m) matches Some(m2) ==> m2.dom() == m.dom(),
    decreases eqs.len(),
{
    if eqs.len() > 0 {
        lemma_eval_defined(rhs_of(eqs[0]), m);
        match eval(rhs_of(eqs[0]), m) {
            Some(s) => {
                let m1 = m.insert(lhs_name(eqs[0]), s);
                assert(m1.dom() =~= m.dom());
                assert forall|i: int|
                    0 <= i < eqs.drop_first().len() implies m1.dom().contains(
                    lhs_name(#[trigger] eqs.drop_first()[i]),
                ) by {
                    assert(eqs.drop_first()[i] == eqs[i + 1]);
                }
                lemma_pass_props(eqs.drop_first(), m1);
                assert forall|i: int|
                    0 <= i < eqs.len() && (pass_result(eqs, m) is Some) implies refs_defined(
                    rhs_of(#[trigger] eqs[i]),
                    m.dom(),
                ) by {
                    if i > 0 {
                        assert(eqs.drop_first()[i - 1] == eqs[i]);
                    }
                }
                if forall|i: int|
                    0 <= i < eqs.len() ==> refs_defined(rhs_of(#[trigger] eqs[i]), m.dom()) {
                    assert forall|i: int|
                        0 <= i < eqs.drop_first().len() implies refs_defined(
                        rhs_of(#[trigger] eqs.drop_first()[i]),
                        m1.dom(),
                    ) by {
                        assert(eqs.drop_first()[i] == eqs[i + 1]);
                        assert(refs_defined(rhs_of(eqs[i + 1]), m.dom()));
                    }
                }
            },
            None => {
                assert(!refs_defined(rhs_of(eqs[0]), m.dom()));
            },
        }
    }
}

/// A pointwise-shaped child list is shaped as a whole.
proof fn lemma_shaped_children_fold(cs: Seq<NodeView>)
    requires
        forall|i: int| 0 <= i < cs.len() ==> shaped(#[trigger] cs[i]),
    ensures
        shaped_children(cs),
    decreases cs,
{
    if cs.len() > 0 {
        assert forall|i: int| 0 <= i < cs.drop_first().len() implies shaped(
            #[trigger] cs.drop_first()[i],
        ) by {
            assert(cs.drop_first()[i] == cs[i + 1]);
        }
        lemma_shaped_children_fold(cs.drop_first());
        assert(shaped(cs[0]));
    }
}

/// Simplifying a well-formed expression yields a tree the solver can
/// evaluate.
proof fn lemma_simplify_wf_shaped(v: NodeView)
    requires
        wf_expr(v),
    ensures
        shaped(spec_simplify(v)),
    decreases v,
{
    lemma_simplify_children_index(v.children);
    if v.kind == NodeType::DataPoint || v.kind == NodeType::Definition {
        assert(v.children.len() == 0);
        assert(!is_collapsible(v));
        assert(spec_simplify(v).children.len() == 0);
        assert(shaped_children(spec_simplify(v).children));
    } else if v.kind == NodeType::SetLiteral {
        assert(!is_collapsible(v));
        let s = spec_simplify(v);
        assert(s.children == simplify_children(v.children));
        assert forall|i: int| 0 <= i < s.children.len() implies shaped(
            #[trigger] s.children[i],
        ) by {
            assert(s.children[i] == spec_simplify(v.children[i]));
            let leaf = v.children[i];
            assert(is_def_leaf(leaf));
            assert(!is_collapsible(leaf));
            lemma_simplify_children_index(leaf.children);
            assert(spec_simplify(leaf).children.len() == 0);
            assert(shaped_children(spec_simplify(leaf).children));
            assert(shaped(spec_simplify(leaf)));
        }
        lemma_shaped_children_fold(s.children);
    } else if v.kind == NodeType::Union || v.kind == NodeType::SetDifference {
        assert(!is_collapsible(v));
        lemma_simplify_wf_shaped(v.children[0]);
        lemma_simplify_wf_shaped(v.children[1]);
        assert(spec_simplify(v).children[0] == spec_simplify(v.children[0]));
        assert(spec_simplify(v).children[1] == spec_simplify(v.children[1]));
    } else {
        assert(v.kind == NodeType::Body);
        assert(is_collapsible(v));
        lemma_simplify_wf_shaped(v.children[0]);
    }
}

/// The pipeline fits together: simplifying a parsed tree (a `Root` holding
/// the equation list, each equation well formed) produces exactly the flat
/// equation list, in a shape the solver's precondition accepts.
pub proof fn lemma_simplified_tree_solvable(root: NodeView)
    requires
        root.kind == NodeType::Root,
        root.children.len() == 1,
        root.children[0].kind == NodeType::DataFlowEquationList,
        root.children[0].token is None,
        forall|i: int|
            0 <= i < root.children[0].children.len() ==> wf_equation(
                #[trigger] root.children[0].children[i],
            ),
    ensures
        solvable(spec_simplify(root)),
        spec_simplify(root).kind == NodeType::DataFlowEquationList,
        spec_simplify(root).children.len() == root.children[0].children.len(),
{
    let eqs = root.children[0].children;
    lemma_simplify_children_index(eqs);
    let s = spec_simplify(root);
    assert(is_collapsible(root));
    assert(!is_collapsible(root.children[0]));
    assert(s == spec_simplify(root.children[0]));
    assert(s.children == simplify_children(eqs));
    assert forall|i: int|
        0 <= i < s.children.len() implies eq_shape(#[trigger] s.children[i]) && shaped(
        rhs_of(s.children[i]),
    ) by {
        assert(s.children[i] == spec_simplify(eqs[i]));
        let eq = eqs[i];
        assert(wf_equation(eq));
        assert(!is_collapsible(eq));
        lemma_simplify_children_index(eq.children);
        let simplified = spec_simplify(eq);
        assert(simplified.children == simplify_children(eq.children));
        assert(simplified.children.len() == 2);
        assert(simplified.children[0] == spec_simplify(eq.children[0]));
        assert(simplified.children[1] == spec_simplify(eq.children[1]));
        assert(!is_collapsible(eq.children[0]));
        lemma_simplify_children_index(eq.children[0].children);
        assert(simplified.children[0].children.len() == 0);
        assert(simplified.children[0].kind == NodeType::DataPoint);
        assert(simplified.children[0].token is Some);
        lemma_simplify_wf_shaped(eq.children[1]);
        assert(eq_shape(simplified));
    }
}

/// Whether an expression is built without the set-difference operator.
pub open spec fn union_only(v: NodeView) -> bool
    decreases v,
{
    if v.kind == NodeType::SetDifference {
        false
    } else {
        union_only_children(v.children)
    }
}

pub open spec fn union_only_children(cs: Seq<NodeView>) -> bool
    decreases cs,
{
    if cs.len() == 0 {
        true
    } else {
        union_only(cs[0]) && union_only_children(cs.drop_first())
    }
}

/// Pointwise ordering of solutions: same data points, each set contained in
/// its counterpart.
pub open spec fn map_le(
    m1: Map<Seq<char>, Set<Seq<char>>>,
    m2: Map<Seq<char>, Set<Seq<char>>>,
) -> bool {
    m1.dom() == m2.dom() && forall|key: Seq<char>| #[trigger]
        m1.dom().contains(key) ==> m1[key].subset_of(m2[key])
}

proof fn lemma_union_only_children_at(cs: Seq<NodeView>, i: int)
    requires
        union_only_children(cs),
        0 <= i < cs.len(),
    ensures
        union_only(cs[i]),
    decreases i,
{
    if i > 0 {
        lemma_union_only_children_at(cs.drop_first(), i - 1);
        assert(cs.drop_first()[i - 1] == cs[i]);
    }
}

/// Evaluation of a union-only expression is monotone in the solution.
proof fn lemma_eval_monotone(
    v: NodeView,
    m1: Map<Seq<char>, Set<Seq<char>>>,
    m2: Map<Seq<char>, Set<Seq<char>>>,
)
    requires
        union_only(v),
        map_le(m1, m2),
    ensures
        (eval(v, m1) is Some) == (eval(v, m2) is Some),
        eval(v, m1) is Some ==> (eval(v, m1)->0).subset_of(eval(v, m2)->0),
    decreases v, 1int,
{
    if v.kind == NodeType::DataPoint || v.kind == NodeType::Definition {
    } else if v.kind == NodeType::Union && v.children.len() == 2 {
        lemma_union_only_children_at(v.children, 0);
        lemma_union_only_children_at(v.children, 1);
        lemma_eval_monotone(v.children[0], m1, m2);
        lemma_eval_monotone(v.children[1], m1, m2);
    } else {
        lemma_eval_children_monotone(v.children, m1, m2);
    }
}

proof fn lemma_eval_children_monotone(
    cs: Seq<NodeView>,
    m1: Map<Seq<char>, Set<Seq<char>>>,
    m2: Map<Seq<char>, Set<Seq<char>>>,
)
    requires
        union_only_children(cs),
        map_le(m1, m2),
    ensures
        (eval_children(cs, m1) is Some) == (eval_children(cs, m2) is Some),
        eval_children(cs, m1) is Some ==> (eval_children(cs, m1)->0).subset_of(
            eval_children(cs, m2)->0,
        ),
    decreases cs, 0int,
{
    if cs.len() > 0 {
        lemma_eval_monotone(cs[0], m1, m2);
        lemma_eval_children_monotone(cs.drop_first(), m1, m2);
    }
}

/// A pass over a union-only system is monotone in the solution it starts
/// from.
proof fn lemma_pass_monotone(
    eqs: Seq<NodeView>,
    m1: Map<Seq<char>, Set<Seq<char>>>,
    m2: Map<Seq<char>, Set<Seq<char>>>,
)
    requires
        forall|i: int| 0 <= i < eqs.len() ==> union_only(rhs_of(#[trigger] eqs[i])),
        forall|i: int| 0 <= i < eqs.len() ==> m1.dom().contains(lhs_name(#[trigger] eqs[i])),
        map_le(m1, m2),
    ensures
        (pass_result(eqs, m1) is Some) == (pass_result(eqs, m2) is Some),
        pass_result(eqs, m1) is Some ==> map_le(pass_result(eqs, m1)->0, pass_result(eqs, m2)->0),
    decreases eqs.len(),
{
    if eqs.len() > 0 {
        lemma_eval_monotone(rhs_of(eqs[0]), m1, m2);
        match (eval(rhs_of(eqs[0]), m1), eval(rhs_of(eqs[0]), m2)) {
            (Some(s1), Some(s2)) => {
                let m1i = m1.insert(lhs_name(eqs[0]), s1);
                let m2i = m2.insert(lhs_name(eqs[0]), s2);
                assert(m1i.dom() =~= m1.dom());
                assert(m2i.dom() =~= m2.dom());
                assert(map_le(m1i, m2i));
                assert forall|i: int|
                    0 <= i < eqs.drop_first().len() implies union_only(
                    rhs_of(#[trigger] eqs.drop_first()[i]),
                ) && m1i.dom().contains(lhs_name(eqs.drop_first()[i])) by {
                    assert(eqs.drop_first()[i] == eqs[i + 1]);
                }
                lemma_pass_monotone(eqs.drop_first(), m1i, m2i);
            },
            _ => {},
        }
    }
}

/// The initial solution maps every left-hand side to the empty set.
proof fn lemma_init_values(eqs: Seq<NodeView>)
    ensures
        forall|key: Seq<char>| #[trigger]
            init_map(eqs).dom().contains(key) ==> init_map(eqs)[key] == Set::<Seq<char>>::empty(),
{
    lemma_init_from_values(eqs);
}

proof fn lemma_init_from_values(eqs: Seq<NodeView>)
    ensures
        forall|key: Seq<char>| #[trigger]
            init_from(eqs, Map::empty()).dom().contains(key) ==> init_from(eqs, Map::empty())[key]
                == Set::<Seq<char>>::empty(),
    decreases eqs.len(),
{
    if eqs.len() > 0 {
        lemma_init_from_values(eqs.drop_last());
        assert(init_from(eqs.drop_last(), Map::empty()) == init_from(
            eqs,
            Map::empty(),
        ).remove(lhs_name(eqs.last())) || init_from(eqs, Map::empty()) == init_from(
            eqs.drop_last(),
            Map::empty(),
        ).insert(lhs_name(eqs.last()), Set::empty()));
    }
}

/// Monotone growth: in an equation system without the set-difference
/// operator, every data point's solution is non-decreasing, as a subset
/// relation, from each pass to the next.
pub proof fn lemma_union_only_monotone(eqs: Seq<NodeView>, k: nat)
    requires
        forall|i: int| 0 <= i < eqs.len() ==> union_only(rhs_of(#[trigger] eqs[i])),
        iter_map(eqs, k + 1) is Some,
    ensures
        iter_map(eqs, k) is Some,
        map_le(iter_map(eqs, k)->0, iter_map(eqs, (k + 1) as nat)->0),
    decreases k,
{
    lemma_init_from_dom(eqs, Map::empty());
    lemma_iter_props(eqs, k);
    lemma_iter_props(eqs, k + 1);
    let mk = iter_map(eqs, k)->0;
    let mk1 = iter_map(eqs, (k + 1) as nat)->0;
    assert(pass_result(eqs, mk) == Some(mk1));
    lemma_pass_props(eqs, mk);
    if k == 0 {
        lemma_init_values(eqs);
        assert(mk == init_map(eqs));
        assert(mk.dom() == mk1.dom());
        assert forall|key: Seq<char>| #[trigger] mk.dom().contains(key) implies mk[key].subset_of(
            mk1[key],
        ) by {
            assert(mk[key] == Set::<Seq<char>>::empty());
        }
    } else {
        lemma_union_only_monotone(eqs, (k - 1) as nat);
        let mprev = iter_map(eqs, (k - 1) as nat)->0;
        lemma_iter_props(eqs, (k - 1) as nat);
        assert forall|i: int|
            0 <= i < eqs.len() implies mprev.dom().contains(lhs_name(#[trigger] eqs[i])) by {
            assert(mprev.dom() == init_map(eqs).dom());
        }
        lemma_pass_monotone(eqs, mprev, mk);
        assert(pass_result(eqs, mprev) == Some(mk));
    }
}

/// Why the solver failed.
#[derive(Debug, Clone, PartialEq, Eq)]
pub enum SolveError {
    /// A right-hand side refers to a data point that no equation defines.
    UndefinedSymbol(String),
    /// The pass counter was exhausted before the system converged.
    IterationLimit,
}

/// Seed `data_points` with the empty set for every left-hand side of the
/// equation list under `node`, in order.
pub fn find_data_points(data_points: &mut PointMap, node: &Node)
    requires
        old(data_points).wf(),
        solvable(node@),
    ensures
        final(data_points).wf(),
        final(data_points)@ == init_from(node@.children, old(data_points)@),
{
    broadcast use lemma_nodes_view_index;

    let ghost eqs = node@.children;
    let ghost m0 = data_points@;
    proof {
        lemma_nodes_view_index(node.children@);
        assert(eqs.subrange(0, 0) =~= Seq::<NodeView>::empty());
    }
    let n = node.children.len();
    for i in 0..n
        invariant
            n == node.children@.len(),
            eqs == node@.children,
            solvable(node@),
            data_points.wf(),
            data_points@ == init_from(eqs.subrange(0, i as int), m0),
    {
        proof {
            lemma_nodes_view_index(node.children@);
            assert(node@.children[i as int] == node.children@[i as int]@);
            assert(eq_shape(eqs[i as int]));
        }
        let eqn = &node.children[i];
        proof {
            lemma_nodes_view_index(eqn.children@);
            assert(eqn@.children.len() == 2);
            assert(eqn.children@.len() == 2);
            assert(eqn@.children[0] == eqn.children@[0]@);
        }
        let l = &eqn.children[0];
        let t = l.token.as_ref().unwrap();
        data_points.insert_empty(&t.lexeme);
        proof {
            assert(t@.text == lhs_name(eqs[i as int]));
            assert(eqs.subrange(0, i + 1).drop_last() =~= eqs.subrange(0, i as int));
            assert(eqs.subrange(0, i + 1).last() == eqs[i as int]);
        }
    }
    proof {
        lemma_nodes_view_index(node.children@);
        assert(eqs.subrange(0, n as int) =~= eqs);
    }
}

/// Evaluate one right-hand-side expression against the current solution.
pub fn solve_points(data_points: &PointMap, node: &Node) -> (r: Result<DefSet, SolveError>)
    requires
        data_points.wf(),
        shaped(node@),
    ensures
        (r is Ok) == (eval(node@, data_points@) is Some),
        r matches Ok(s) ==> Some(s@) == eval(node@, data_points@) && s.wf(),
        r matches Err(e) ==> e matches SolveError::UndefinedSymbol(name)
            && !data_points@.dom().contains(name@),
    decreases *node,
{
    broadcast use lemma_nodes_view_index;

    if node.node_type == NodeType::DataPoint {
        let t = node.token.as_ref().unwrap();
        match data_points.get(&t.lexeme) {
            Some(points) => Ok(points.duplicate()),
            None => Err(SolveError::UndefinedSymbol(t.lexeme.clone())),
        }
    } else if node.node_type == NodeType::Definition {
        let t = node.token.as_ref().unwrap();
        Ok(DefSet::singleton(&t.lexeme))
    } else if (node.node_type == NodeType::SetDifference || node.node_type == NodeType::Union)
        && node.children.len() == 2 {
        proof {
            lemma_nodes_view_index(node.children@);
            assert(node@.children[0] == node.children@[0]@);
            assert(node@.children[1] == node.children@[1]@);
        }
        let left = match solve_points(data_points, &node.children[0]) {
            Ok(s) => s,
            Err(e) => {
                return Err(e);
            },
        };
        let right = match solve_points(data_points, &node.children[1]) {
            Ok(s) => s,
            Err(e) => {
                return Err(e);
            },
        };
        if node.node_type == NodeType::SetDifference {
            Ok(left.difference(&right))
        } else {
            Ok(left.union(&right))
        }
    } else {
        let ghost cs = node@.children;
        proof {
            lemma_nodes_view_index(node.children@);
            lemma_shaped_unfold(node@);
            assert(cs.subrange(0, cs.len() as int) =~= cs);
        }
        let n = node.children.len();
        let mut points = DefSet::new();
        for i in 0..n
            invariant
                n == node.children@.len(),
                cs == node@.children,
                data_points.wf(),
                shaped(node@),
                !(node@.kind == NodeType::DataPoint),
                !(node@.kind == NodeType::Definition),
                !((node@.kind == NodeType::SetDifference || node@.kind == NodeType::Union)
                    && cs.len() == 2),
                points.wf(),
                eval_children(cs, data_points@) == (match eval_children(
                    cs.subrange(i as int, cs.len() as int),
                    data_points@,
                ) {
                    Some(rest) => Some(points@.union(rest)),
                    None => None::<Set<Seq<char>>>,
                }),
        {
            proof {
                lemma_nodes_view_index(node.children@);
                assert(cs[i as int] == node.children@[i as int]@);
                lemma_shaped_unfold(node@);
                lemma_shaped_children_at(cs, i as int);
            }
            let child_points = match solve_points(data_points, &node.children[i]) {
                Ok(s) => s,
                Err(e) => {
                    proof {
                        assert(cs.subrange(i as int, cs.len() as int)[0] == cs[i as int]);
                    }
                    return Err(e);
                },
            };
            points = points.union(&child_points);
            proof {
                let tail = cs.subrange(i as int, cs.len() as int);
                assert(tail[0] == cs[i as int]);
                assert(tail.drop_first() =~= cs.subrange(i + 1, cs.len() as int));
                match eval_children(cs.subrange(i + 1, cs.len() as int), data_points@) {
                    Some(rest) => {
                        assert(eval_children(cs, data_points@) matches Some(t) ==> t
                            =~= points@.union(rest));
                    },
                    None => {},
                }
            }
        }
        proof {
            assert(cs.subrange(n as int, cs.len() as int) =~= Seq::<NodeView>::empty());
            match eval_children(cs, data_points@) {
                Some(t) => {
                    assert(t =~= points@.union(Set::empty()));
                },
                None => {},
            }
        }
        Ok(points)
    }
}

/// A shaped node list is shaped at each index.
proof fn lemma_shaped_children_at(cs: Seq<NodeView>, i: int)
    requires
        shaped_children(cs),
        0 <= i < cs.len(),
    ensures
        shaped(cs[i]),
    decreases i,
{
    if i > 0 {
        lemma_shaped_children_at(cs.drop_first(), i - 1);
        assert(cs.drop_first()[i - 1] == cs[i]);
    }
}

/// A shaped expression node needs shaped children for the fallthrough case.
proof fn lemma_shaped_unfold(v: NodeView)
    requires
        shaped(v),
        !(v.kind == NodeType::DataPoint),
        !(v.kind == NodeType::Definition),
        !((v.kind == NodeType::SetDifference || v.kind == NodeType::Union) && v.children.len()
            == 2),
    ensures
        shaped_children(v.children),
{
}

/// Whether any data point's set differs between two solutions over the same
/// data points.
pub fn has_changed(a: &PointMap, b: &PointMap) -> (r: bool)
    requires
        a.wf(),
        b.wf(),
        a@.dom() == b@.dom(),
    ensures
        r == (a@ != b@),
{
    proof {
        lemma_entries_map_props(a.entries@);
    }
    let n = a.entries.len();
    let mut i: usize = 0;
    loop
        invariant
            i <= n,
            n == a.entries@.len(),
            a.wf(),
            b.wf(),
            a@.dom() == b@.dom(),
            forall|j: int|
                0 <= j < i ==> a@[(#[trigger] a.entries@[j]).0@] == b@[a.entries@[j].0@],
        ensures
            i <= n,
            n == a.entries@.len(),
            i < n ==> a@ != b@,
            i >= n ==> forall|j: int|
                0 <= j < n ==> a@[(#[trigger] a.entries@[j]).0@] == b@[a.entries@[j].0@],
        decreases n - i,
    {
        if i >= n {
            break ;
        }
        proof {
            lemma_entries_map_props(a.entries@);
        }
        let key = &a.entries[i].0;
        let value = match b.get(key) {
            Some(v) => v,
            None => {
                proof {
                    assert(a@.dom().contains(a.entries@[i as int].0@));
                    assert(false);
                }
                break ;
            },
        };
        if !a.entries[i].1.set_eq(value) {
            proof {
                assert(a@[a.entries@[i as int].0@] == a.entries@[i as int].1@);
            }
            break ;
        }
        i = i + 1;
    }
    if i < n {
        true
    } else {
        proof {
            lemma_entries_map_props(a.entries@);
            assert forall|k: Seq<char>| a@.dom().contains(k) implies a@[k] == b@[k] by {
                let j = choose|j: int| 0 <= j < a.entries@.len() && a.entries@[j].0@ == k;
            }
            assert(a@ =~= b@);
        }
        false
    }
}

/// Run one pass over the equations, updating `data_points` in place.
#[verifier::rlimit(100)]
fn run_pass(data_points: &mut PointMap, node: &Node) -> (r: Result<(), SolveError>)
    requires
        old(data_points).wf(),
        solvable(node@),
        old(data_points)@.dom() == init_map(node@.children).dom(),
    ensures
        final(data_points).wf(),
        final(data_points)@.dom() == init_map(node@.children).dom(),
        (r is Ok) == (pass_result(node@.children, old(data_points)@) is Some),
        r is Ok ==> pass_result(node@.children, old(data_points)@) == Some(final(data_points)@),
        r matches Err(e) ==> e matches SolveError::UndefinedSymbol(name) && !init_map(
            node@.children,
        ).dom().contains(name@),
{
    let ghost eqs = node@.children;
    let ghost m_start = data_points@;
    let n = node.children.len();
    proof {
        lemma_nodes_view_index(node.children@);
        assert(eqs.subrange(0, eqs.len() as int) =~= eqs);
        lemma_init_from_dom(eqs, Map::empty());
    }
    for idx in 0..n
        invariant
            n == node.children@.len(),
            eqs == node@.children,
            m_start == old(data_points)@,
            solvable(node@),
            data_points.wf(),
            data_points@.dom() == init_map(eqs).dom(),
            pass_result(eqs.subrange(idx as int, eqs.len() as int), data_points@) == pass_result(
                eqs,
                m_start,
            ),
    {
        proof {
            lemma_nodes_view_index(node.children@);
            assert(eqs[idx as int] == node.children@[idx as int]@);
            assert(eq_shape(eqs[idx as int]));
        }
        let eqn = &node.children[idx];
        proof {
            lemma_nodes_view_index(eqn.children@);
            assert(eqn@.children.len() == 2);
            assert(eqn@.children[0] == eqn.children@[0]@);
            assert(eqn@.children[1] == eqn.children@[1]@);
        }
        let l = &eqn.children[0];
        let name = &l.token.as_ref().unwrap().lexeme;
        let rhs = &eqn.children[1];
        let ghost tail = eqs.subrange(idx as int, eqs.len() as int);
        proof {
            assert(tail[0] == eqs[idx as int]);
            assert(tail.drop_first() =~= eqs.subrange(idx + 1, eqs.len() as int));
        }
        let points = match solve_points(&data_points, rhs) {
            Ok(s) => s,
            Err(e) => {
                proof {
                    assert(rhs@ == rhs_of(eqs[idx as int]));
                    assert(pass_result(tail, data_points@) is None);
                }
                return Err(e);
            },
        };
        let ghost before_update = data_points@;
        proof {
            lemma_init_from_dom(eqs, Map::empty());
            assert(name@ == lhs_name(eqs[idx as int]));
            assert(before_update.dom().contains(name@));
        }
        data_points.update(name, points);
        proof {
            assert(data_points@ == before_update.insert(lhs_name(tail[0]), points@));
            assert(pass_result(tail, before_update) == pass_result(
                tail.drop_first(),
                data_points@,
            ));
            assert(data_points@.dom() =~= before_update.dom());
        }
    }
    proof {
        assert(eqs.subrange(n as int, eqs.len() as int) =~= Seq::<NodeView>::empty());
    }
    Ok(())
}

/// Solve the equation system under `node` by fixed-point iteration.
///
/// Returns the 1-based iteration at which the solution stopped changing
/// (the pass that only confirms convergence is not counted, and a system
/// already stable after its first pass reports iteration 1), together with
/// the converged solution: one further pass would return it unchanged.  A
/// right-hand side that names a data point no equation defines is reported
/// as an undefined symbol.  A system that oscillates is not detected as
/// such: the solver simply keeps iterating, and gives up only at an
/// astronomically large pass count.
#[verifier::rlimit(100)]
pub fn reaching_definitions(node: &Node) -> (r: Result<(usize, PointMap), SolveError>)
    requires
        solvable(node@),
    ensures
        r matches Ok(p) ==> {
            &&& p.0 >= 1
            &&& p.1@.dom() == init_map(node@.children).dom()
            &&& iter_map(node@.children, p.0 as nat) == Some(p.1@)
            &&& pass_result(node@.children, p.1@) == Some(p.1@)
            &&& forall|j: int|
                1 <= j < p.0 ==> #[trigger] iter_map(node@.children, j as nat) != iter_map(
                    node@.children,
                    (j - 1) as nat,
                )
            &&& p.1.wf()
        },
        (r matches Err(SolveError::UndefinedSymbol(n))) == !system_defined(node@.children),
        r matches Err(SolveError::UndefinedSymbol(n)) ==> !init_map(
            node@.children,
        ).dom().contains(n@),
        r matches Err(SolveError::IterationLimit) ==> forall|j: int|
            1 <= j <= usize::MAX ==> #[trigger] iter_map(node@.children, j as nat) != iter_map(
                node@.children,
                (j - 1) as nat,
            ),
{
    let ghost eqs = node@.children;
    let mut data_points_a = PointMap::new();
    let mut data_points_b = PointMap::new();
    find_data_points(&mut data_points_a, node);
    find_data_points(&mut data_points_b, node);
    proof {
        lemma_init_from_dom(eqs, Map::empty());
    }
    let mut passes: usize = 0;
    let ghost mut k: nat = 0nat;
    loop
        invariant
            solvable(node@),
            eqs == node@.children,
            data_points_a.wf(),
            data_points_b.wf(),
            iter_map(eqs, k) == Some(data_points_a@),
            data_points_b@ == data_points_a@,
            data_points_a@.dom() == init_map(eqs).dom(),
            passes == k,
            forall|j: int|
                1 <= j <= k ==> #[trigger] iter_map(eqs, j as nat) != iter_map(
                    eqs,
                    (j - 1) as nat,
                ),
        decreases usize::MAX - passes,
    {
        if passes == usize::MAX {
            proof {
                lemma_iter_props(eqs, k);
                assert(system_defined(eqs));
            }
            return Err(SolveError::IterationLimit);
        }
        let ghost m_start = data_points_a@;
        match run_pass(&mut data_points_a, node) {
            Ok(_) => {},
            Err(e) => {
                proof {
                    assert(pass_result(eqs, m_start) is None);
                    assert(iter_map(eqs, k + 1) is None);
                    lemma_iter_props(eqs, k + 1);
                    assert(!system_defined(eqs));
                }
                return Err(e);
            },
        }
        proof {
            assert(pass_result(eqs, m_start) == Some(data_points_a@));
            assert(iter_map(eqs, k + 1) == Some(data_points_a@));
        }
        let changed = has_changed(&data_points_a, &data_points_b);
        if !changed {
            proof {
                assert(data_points_a@ == data_points_b@);
                assert(iter_map(eqs, k + 1) == iter_map(eqs, k));
                lemma_iter_props(eqs, k + 1);
                assert(system_defined(eqs));
            }
            let iterations = if passes == 0 {
                1
            } else {
                passes
            };
            proof {
                if passes == 0 {
                    assert(iter_map(eqs, 1nat) == Some(data_points_a@));
                }
            }
            return Ok((iterations, data_points_a));
        }
        data_points_b = data_points_a.duplicate();
        passes = passes + 1;
        proof {
            k = k + 1nat;
            assert(iter_map(eqs, k) != iter_map(eqs, (k - 1) as nat));
        }
    }
}

/// From the first pass on, success of the k-th iterate does not depend on
/// k: it is exactly the definedness of the system's references.
proof fn lemma_iter_props(eqs: Seq<NodeView>, k: nat)
    ensures
        iter_map(eqs, k) matches Some(m) ==> m.dom() == init_map(eqs).dom(),
        k >= 1 ==> (iter_map(eqs, k) is Some) == system_defined(eqs),
    decreases k,
{
    lemma_init_from_dom(eqs, Map::empty());
    if k >= 1 {
        lemma_iter_props(eqs, (k - 1) as nat);
        match iter_map(eqs, (k - 1) as nat) {
            Some(m) => {
                lemma_pass_props(eqs, m);
                assert forall|i: int|
                    0 <= i < eqs.len() implies (refs_defined(
                    rhs_of(#[trigger] eqs[i]),
                    m.dom(),
                ) == refs_defined(rhs_of(eqs[i]), init_map(eqs).dom())) by {
                    assert(m.dom() == init_map(eqs).dom());
                }
            },
            None => {},
        }
    }
}

} // verus!
