//! A value graph held as plain data, and its serialization.

use vstd::prelude::*;
use crate::response::{
    lemma_closed_part, lemma_scalar_reaches_nothing, part_of, reachable_set, EvalResponse, MemberModel, ObjectsModel,
};
use crate::walk::{offered, wire_members, GraphWalk, RuntimeValue};

verus! {

/// A value of a `ValueGraph`: a composite's handle is its position there.
pub type GraphValue = RuntimeValue<usize>;

/// One composite object: the string form of its identity and its members.
pub struct Composite {
    name: String,
    members: Vec<(GraphValue, GraphValue)>,
}

/// The composite objects of one evaluation. Distinct composites have
/// distinct identities, and every composite value in it points into it.
pub struct ValueGraph {
    nodes: Vec<Composite>,
}

/// A second value equal to `v`.
fn same_value(v: &GraphValue) -> (r: GraphValue)
    ensures
        r == *v,
{
    match v {
        RuntimeValue::Null => RuntimeValue::Null,
        RuntimeValue::Number(bits) => RuntimeValue::Number(*bits),
        RuntimeValue::String(s) => RuntimeValue::String(s.clone()),
        RuntimeValue::Composite(name, handle) => RuntimeValue::Composite(name.clone(), *handle),
    }
}

impl ValueGraph {
    /// The identities of the composites, by handle.
    pub closed spec fn names(&self) -> Seq<Seq<char>> {
        Seq::new(self.nodes@.len(), |i: int| self.nodes@[i].name@)
    }

    /// The members of the composite with handle `h`.
    pub closed spec fn members_of(&self, h: int) -> Seq<(GraphValue, GraphValue)> {
        self.nodes@[h].members@
    }

    /// The graph as a mapping from identity to wire members.
    pub open spec fn model(&self) -> ObjectsModel {
        Map::new(
            |k: Seq<char>| self.names().contains(k),
            |k: Seq<char>| wire_members(self.members_of(self.names().index_of(k))),
        )
    }

    /// Whether `v` is a scalar, or a composite of this graph under its own
    /// identity.
    pub open spec fn valid(&self, v: GraphValue) -> bool {
        match v {
            RuntimeValue::Composite(name, h) => h < self.names().len() && self.names()[h as int]
                == name@,
            _ => true,
        }
    }

    /// Identities are distinct and every member is valid.
    pub open spec fn wf(&self) -> bool {
        &&& self.names().no_duplicates()
        &&& forall|h: int, j: int|
            0 <= h < self.names().len() && 0 <= j < self.members_of(h).len() ==> self.valid(
                (#[trigger] self.members_of(h)[j]).0,
            ) && self.valid(self.members_of(h)[j].1)
    }

    /// The graph without composites.
    pub fn new() -> (g: ValueGraph)
        ensures
            g.wf(),
            g.names() == Seq::<Seq<char>>::empty(),
    {
        let g = ValueGraph { nodes: Vec::new() };
        assert(g.names() =~= Seq::<Seq<char>>::empty());
        g
    }

    /// Number of composites.
    pub fn len(&self) -> (n: usize)
        ensures
            n == self.names().len(),
    {
        self.nodes.len()
    }

    /// Exec form of `valid`.
    pub fn is_valid(&self, v: &GraphValue) -> (b: bool)
        ensures
            b == self.valid(*v),
    {
        match v {
            RuntimeValue::Composite(name, h) => {
                if *h < self.nodes.len() {
                    assert(self.names()[*h as int] == self.nodes@[*h as int].name@);
                    self.nodes[*h].name == *name
                } else {
                    false
                }
            },
            _ => true,
        }
    }

    /// The composite whose identity is `name`: the one that the graph holds
    /// under that identity, or else a new one without members.
    pub fn composite(&mut self, name: &str) -> (v: GraphValue)
        requires
            old(self).wf(),
        ensures
            final(self).wf(),
            final(self).valid(v),
            v.wire() == crate::response::ValueModel::Ref(name@),
            old(self).names().contains(name@) ==> *final(self) == *old(self),
            !old(self).names().contains(name@) ==> final(self).names() == old(self).names().push(
                name@,
            ) && final(self).members_of(old(self).names().len() as int) == Seq::<
                (GraphValue, GraphValue),
            >::empty(),
            forall|h: int|
                0 <= h < old(self).names().len() ==> final(self).members_of(h) == old(
                    self,
                ).members_of(h),
    {
        let owned = String::from_str(name);
        let mut i: usize = 0;
        while i < self.nodes.len()
            invariant
                *self == *old(self),
                self.wf(),
                owned@ == name@,
                i <= self.nodes@.len(),
                forall|j: int| 0 <= j < i ==> self.names()[j] != name@,
            decreases self.nodes@.len() - i,
        {
            assert(self.names()[i as int] == self.nodes@[i as int].name@);
            if self.nodes[i].name == owned {
                assert(self.names()[i as int] == name@);
                return RuntimeValue::Composite(self.nodes[i].name.clone(), i);
            }
            i += 1;
        }
        let ghost before = *self;
        let again = owned.clone();
        self.nodes.push(Composite { name: owned, members: Vec::new() });
        proof {
            assert(self.names() =~= before.names().push(name@));
            assert forall|h: int, j: int|
                0 <= h < self.names().len() && 0 <= j < self.members_of(h).len() implies self.valid(
                (#[trigger] self.members_of(h)[j]).0,
            ) && self.valid(self.members_of(h)[j].1) by {
                assert(self.members_of(h) == before.members_of(h));
                assert(before.valid(before.members_of(h)[j].0));
                assert(before.valid(before.members_of(h)[j].1));
            }
        }
        RuntimeValue::Composite(again, i)
    }

    /// Gives the composite `owner` one more member, the last in its order.
    /// Nothing is added unless all three values are valid in this graph and
    /// `owner` is a composite.
    pub fn add_member(&mut self, owner: &GraphValue, key: GraphValue, value: GraphValue) -> (added:
        bool)
        requires
            old(self).wf(),
        ensures
            final(self).wf(),
            final(self).names() == old(self).names(),
            added == (*owner is Composite && old(self).valid(*owner) && old(self).valid(key)
                && old(self).valid(value)),
            !added ==> *final(self) == *old(self),
            added ==> (*owner matches RuntimeValue::Composite(_, at) && final(self).members_of(
                at as int,
            ) == old(self).members_of(at as int).push((key, value)) && forall|h: int|
                0 <= h < old(self).names().len() && h != at ==> final(self).members_of(h) == old(
                    self,
                ).members_of(h)),
    {
        if !(self.is_valid(owner) && self.is_valid(&key) && self.is_valid(&value)) {
            return false;
        }
        match owner {
            RuntimeValue::Composite(_, at) => {
                let ghost before = *self;
                let at: usize = *at;
                let mut node = self.nodes.remove(at);
                node.members.push((key, value));
                self.nodes.insert(at, node);
                proof {
                    assert(self.names() =~= before.names());
                    assert(self.members_of(at as int) == before.members_of(at as int).push(
                        (key, value),
                    ));
                    assert forall|h: int, j: int|
                        0 <= h < self.names().len() && 0 <= j < self.members_of(h).len() implies self.valid(
                        (#[trigger] self.members_of(h)[j]).0,
                    ) && self.valid(self.members_of(h)[j].1) by {
                        if h == at {
                            if j < before.members_of(h).len() {
                                assert(self.members_of(h)[j] == before.members_of(h)[j]);
                                assert(before.valid(before.members_of(h)[j].0));
                            }
                        } else {
                            assert(self.members_of(h) == before.members_of(h));
                            assert(before.valid(before.members_of(h)[j].0));
                        }
                    }
                }
                true
            },
            _ => false,
        }
    }

    /// The members of the composite with handle `h`, copied.
    fn copy_members(&self, h: usize) -> (members: Vec<(GraphValue, GraphValue)>)
        requires
            h < self.names().len(),
        ensures
            members@ == self.members_of(h as int),
    {
        let source = &self.nodes[h].members;
        let mut members: Vec<(GraphValue, GraphValue)> = Vec::new();
        let mut i: usize = 0;
        while i < source.len()
            invariant
                i <= source@.len(),
                members@ == source@.subrange(0, i as int),
            decreases source@.len() - i,
        {
            let pair = (same_value(&source[i].0), same_value(&source[i].1));
            members.push(pair);
            assert(members@ =~= source@.subrange(0, i + 1));
            i += 1;
        }
        assert(members@ =~= source@);
        members
    }

    /// Serializes the graph below `root`: every composite that `root`
    /// reaches is expanded exactly once, with its members in their order,
    /// and nothing else is emitted. A root that is no value of this graph
    /// is answered with a failure.
    pub fn serialize(&self, root: GraphValue) -> (response: EvalResponse)
        requires
            self.wf(),
        ensures
            response.wf(),
            !self.valid(root) ==> (response matches EvalResponse::Failure { error } && error@
                == "unable to serialize object: unknown composite"@),
            self.valid(root) ==> (response matches EvalResponse::Success { objects, value } && {
                &&& value@ == root.wire()
                &&& objects@ == self.model().restrict(reachable_set(self.model(), root.wire()))
                &&& reachable_set(self.model(), root.wire()).finite()
                &&& objects.spec_len() == reachable_set(self.model(), root.wire()).len()
                &&& !(root is Composite) ==> objects@ == Map::<Seq<char>, Seq<MemberModel>>::empty()
                    && objects.spec_len() == 0
            }),
    {
        if !self.is_valid(&root) {
            return EvalResponse::Failure {
                error: String::from_str("unable to serialize object: unknown composite"),
            };
        }
        let ghost given = root;
        let mut walk = GraphWalk::start(root);
        let mut done: usize = walk.count();
        proof {
            match given {
                RuntimeValue::Composite(name, h) => {
                    assert(walk.pending()[0] == (crate::response::Reference(name), h));
                },
                _ => {},
            }
        }
        while !walk.is_done()
            invariant
                self.wf(),
                walk.wf(),
                walk.root_model() == given.wire(),
                done == walk.expanded(),
                forall|i: int|
                    0 <= i < walk.pending().len() ==> (#[trigger] walk.pending()[i]).1
                        < self.names().len() && self.names()[walk.pending()[i].1 as int]
                        == walk.pending()[i].0@,
                part_of(walk.objects_model(), self.model()),
            decreases usize::MAX - done,
        {
            let ghost before = walk;
            let handle: usize = match walk.next() {
                Some((_, h)) => *h,
                None => 0,
            };
            let ghost top = before.pending().last();
            assert(handle == top.1);
            let members = self.copy_members(handle);
            let ghost ms = members@;
            walk.expand(members);
            done = walk.count();
            proof {
                assert(self.names().contains(top.0@));
                assert(self.names().index_of(top.0@) == handle);
                assert(self.model().contains_key(top.0@));
                assert(self.model()[top.0@] == wire_members(ms));
                assert forall|k: Seq<char>| #[trigger]
                    walk.objects_model().contains_key(k) implies self.model().contains_key(k)
                    && self.model()[k] == walk.objects_model()[k] by {
                    if k != top.0@ {
                        assert(before.objects_model().contains_key(k));
                    }
                }
                assert forall|i: int| 0 <= i < walk.pending().len() implies (
                #[trigger] walk.pending()[i]).1 < self.names().len() && self.names()[walk.pending()[i].1 as int]
                    == walk.pending()[i].0@ by {
                    let e = walk.pending()[i];
                    if i < before.pending().len() - 1 {
                        assert(e == before.pending().drop_last()[i]);
                        assert(e == before.pending()[i]);
                    } else {
                        assert(offered(ms, e));
                        let j = choose|j: int|
                            0 <= j < ms.len() && (#[trigger] ms[j].0 == RuntimeValue::Composite(
                                e.0.0,
                                e.1,
                            ) || ms[j].1 == RuntimeValue::Composite(e.0.0, e.1));
                        assert(self.valid(self.members_of(handle as int)[j].0));
                        assert(self.valid(self.members_of(handle as int)[j].1));
                    }
                }
            }
        }
        let response = walk.finish();
        proof {
            let ghost answer = response;
            match answer {
                EvalResponse::Success { objects, value } => {
                    lemma_closed_part(objects@, self.model(), value@);
                    objects.lemma_keys();
                    if !(given is Composite) {
                        lemma_scalar_reaches_nothing(self.model(), value@);
                    }
                },
                _ => {},
            }
        }
        response
    }
}

} // verus!
