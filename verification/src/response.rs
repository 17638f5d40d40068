//! The wire-facing result of an evaluation and its mathematical model.

use vstd::prelude::*;

verus! {

/// Mathematical model of a wire value.
pub enum ValueModel {
    Null,
    /// A number, by the bit pattern of its IEEE-754 double.
    Number(u64),
    Text(Seq<char>),
    /// A pointer into the objects of the same response.
    Ref(Seq<char>),
}

/// Mathematical model of one member of an object.
pub struct MemberModel {
    pub key: ValueModel,
    pub value: ValueModel,
}

/// Mathematical model of the objects of a response: reference to members.
pub type ObjectsModel = Map<Seq<char>, Seq<MemberModel>>;

/// Whether the member's key or its value is the reference `r`.
pub open spec fn member_mentions(m: MemberModel, r: Seq<char>) -> bool {
    m.key == ValueModel::Ref(r) || m.value == ValueModel::Ref(r)
}

/// Whether some member of `members` points at `r`.
pub open spec fn mentions(members: Seq<MemberModel>, r: Seq<char>) -> bool {
    exists|i: int| 0 <= i < members.len() && member_mentions(#[trigger] members[i], r)
}

/// `path` starts at the reference held by `root` and each step follows a
/// member of an object of `objs`.
pub open spec fn is_path(objs: ObjectsModel, root: ValueModel, path: Seq<Seq<char>>) -> bool {
    &&& path.len() > 0
    &&& root == ValueModel::Ref(path[0])
    &&& forall|i: int|
        0 <= i < path.len() - 1 ==> objs.contains_key(#[trigger] path[i]) && mentions(
            objs[path[i]],
            path[i + 1],
        )
}

/// `r` can be reached from `root` by following references through `objs`.
pub open spec fn reachable(objs: ObjectsModel, root: ValueModel, r: Seq<char>) -> bool {
    exists|path: Seq<Seq<char>>| #[trigger] is_path(objs, root, path) && path.last() == r
}

/// No reference dangles: the root's and every member's target is a key.
pub open spec fn closed(objs: ObjectsModel, root: ValueModel) -> bool {
    &&& forall|r: Seq<char>| root == ValueModel::Ref(r) ==> objs.contains_key(r)
    &&& forall|k: Seq<char>, r: Seq<char>|
        objs.contains_key(k) && #[trigger] mentions(objs[k], r) ==> objs.contains_key(r)
}

/// Every key can be reached from the root.
pub open spec fn no_orphans(objs: ObjectsModel, root: ValueModel) -> bool {
    forall|k: Seq<char>| objs.contains_key(k) ==> #[trigger] reachable(objs, root, k)
}

/// Every object of `objs` stands in `whole` with the same members.
pub open spec fn part_of(objs: ObjectsModel, whole: ObjectsModel) -> bool {
    forall|k: Seq<char>| #[trigger]
        objs.contains_key(k) ==> whole.contains_key(k) && whole[k] == objs[k]
}

/// The set of references that can be reached from `root`.
pub open spec fn reachable_set(objs: ObjectsModel, root: ValueModel) -> Set<Seq<char>> {
    Set::new(|r: Seq<char>| reachable(objs, root, r))
}

/// A path stays a path when objects are added and none is changed.
pub proof fn lemma_reachable_monotone(
    objs: ObjectsModel,
    more: ObjectsModel,
    root: ValueModel,
    r: Seq<char>,
)
    requires
        reachable(objs, root, r),
        part_of(objs, more),
    ensures
        reachable(more, root, r),
{
    let path = choose|path: Seq<Seq<char>>| #[trigger] is_path(objs, root, path) && path.last() == r;
    assert(is_path(more, root, path));
}

/// What a reachable object points at is reachable.
pub proof fn lemma_reachable_step(objs: ObjectsModel, root: ValueModel, k: Seq<char>, r: Seq<char>)
    requires
        reachable(objs, root, k),
        objs.contains_key(k),
        mentions(objs[k], r),
    ensures
        reachable(objs, root, r),
{
    let path = choose|path: Seq<Seq<char>>| #[trigger] is_path(objs, root, path) && path.last() == k;
    let longer = path.push(r);
    assert forall|i: int| 0 <= i < longer.len() - 1 implies objs.contains_key(
        #[trigger] longer[i],
    ) && mentions(objs[longer[i]], longer[i + 1]) by {
        if i < path.len() - 1 {
            assert(longer[i] == path[i]);
            assert(longer[i + 1] == path[i + 1]);
        } else {
            assert(longer[i] == k);
        }
    }
    assert(is_path(objs, root, longer));
    assert(longer.last() == r);
}

/// A scalar reaches nothing.
pub proof fn lemma_scalar_reaches_nothing(objs: ObjectsModel, root: ValueModel)
    requires
        !(root is Ref),
    ensures
        reachable_set(objs, root) == Set::<Seq<char>>::empty(),
        objs.restrict(reachable_set(objs, root)) == Map::<Seq<char>, Seq<MemberModel>>::empty(),
{
    assert(reachable_set(objs, root) =~= Set::<Seq<char>>::empty());
    assert(objs.restrict(reachable_set(objs, root)) =~= Map::<Seq<char>, Seq<MemberModel>>::empty());
}

/// Every step of a path through a closed graph is a key.
pub proof fn lemma_path_inside(
    objs: ObjectsModel,
    model: ObjectsModel,
    root: ValueModel,
    path: Seq<Seq<char>>,
    i: int,
)
    requires
        closed(objs, root),
        part_of(objs, model),
        is_path(model, root, path),
        0 <= i < path.len(),
    ensures
        objs.contains_key(path[i]),
    decreases i,
{
    if i > 0 {
        lemma_path_inside(objs, model, root, path, i - 1);
        let k = path[i - 1];
        assert(model.contains_key(k) && mentions(model[k], path[i - 1 + 1]));
        assert(objs.contains_key(k));
        assert(mentions(objs[k], path[i]));
    }
}

/// A closed part of a graph without orphans is the graph cut down to what
/// its root reaches: the same keys, each with the same members.
pub proof fn lemma_closed_part(objs: ObjectsModel, model: ObjectsModel, root: ValueModel)
    requires
        closed(objs, root),
        no_orphans(objs, root),
        part_of(objs, model),
    ensures
        objs.dom() == reachable_set(model, root),
        objs == model.restrict(reachable_set(model, root)),
{
    assert forall|r: Seq<char>| objs.contains_key(r) <==> reachable(model, root, r) by {
        if objs.contains_key(r) {
            lemma_reachable_monotone(objs, model, root, r);
        }
        if reachable(model, root, r) {
            let path = choose|path: Seq<Seq<char>>| #[trigger]
                is_path(model, root, path) && path.last() == r;
            lemma_path_inside(objs, model, root, path, path.len() - 1);
        }
    }
    assert(objs.dom() =~= reachable_set(model, root));
    assert forall|k: Seq<char>| objs.contains_key(k) implies objs[k] == model.restrict(
        reachable_set(model, root),
    )[k] by {
        assert(model.contains_key(k) && model[k] == objs[k]);
    }
    assert(objs.dom() =~= model.restrict(reachable_set(model, root)).dom());
    assert(objs =~= model.restrict(reachable_set(model, root)));
}

/// Token naming one composite object within a single response.
#[derive(Clone, Debug, PartialEq, Eq, Hash)]
pub struct Reference(pub String);

impl View for Reference {
    type V = Seq<char>;

    open spec fn view(&self) -> Seq<char> {
        self.0@
    }
}

impl Reference {
    /// A second token for the same object.
    pub fn duplicate(&self) -> (r: Reference)
        ensures
            r == *self,
    {
        Reference(self.0.clone())
    }

    /// Whether both tokens name the same object.
    pub fn same(&self, other: &Reference) -> (b: bool)
        ensures
            b == (self@ == other@),
    {
        self.0 == other.0
    }
}

/// A value as it goes over the wire: a scalar, or a pointer into the objects.
#[derive(Debug, PartialEq)]
pub enum Value {
    Null,
    /// A number, held as the bit pattern of its IEEE-754 double.
    Number(u64),
    String(String),
    ObjectRef(Reference),
}

impl View for Value {
    type V = ValueModel;

    open spec fn view(&self) -> ValueModel {
        match self {
            Value::Null => ValueModel::Null,
            Value::Number(bits) => ValueModel::Number(*bits),
            Value::String(s) => ValueModel::Text(s@),
            Value::ObjectRef(r) => ValueModel::Ref(r@),
        }
    }
}

impl Value {
    /// A second value with the same meaning.
    pub fn duplicate(&self) -> (v: Value)
        ensures
            v@ == self@,
    {
        match self {
            Value::Null => Value::Null,
            Value::Number(bits) => Value::Number(*bits),
            Value::String(s) => Value::String(s.clone()),
            Value::ObjectRef(r) => Value::ObjectRef(r.duplicate()),
        }
    }
}

/// One key/value pair of an object.
#[derive(Debug, PartialEq)]
pub struct ObjectMember {
    pub key: Value,
    pub value: Value,
}

impl View for ObjectMember {
    type V = MemberModel;

    open spec fn view(&self) -> MemberModel {
        MemberModel { key: self.key@, value: self.value@ }
    }
}

/// The members of one composite, in traversal order.
#[derive(Debug, PartialEq)]
pub struct Object {
    pub members: Vec<ObjectMember>,
}

impl View for Object {
    type V = Seq<MemberModel>;

    open spec fn view(&self) -> Seq<MemberModel> {
        Seq::new(self.members@.len(), |i: int| self.members@[i]@)
    }
}

/// The objects of a response, each under its reference; no reference twice.
#[derive(Debug)]
pub struct ObjectTable {
    entries: Vec<(Reference, Object)>,
}

impl View for ObjectTable {
    type V = ObjectsModel;

    closed spec fn view(&self) -> ObjectsModel {
        Map::new(
            |k: Seq<char>| self.position(k) >= 0,
            |k: Seq<char>| self.entries@[self.position(k)].1@,
        )
    }
}

impl ObjectTable {
    /// The references in the order in which their objects were added.
    pub closed spec fn keys(&self) -> Seq<Seq<char>> {
        Seq::new(self.entries@.len(), |i: int| self.entries@[i].0@)
    }

    /// Index of the entry for `k`, or -1.
    pub closed spec fn position(&self, k: Seq<char>) -> int {
        if self.keys().contains(k) {
            self.keys().index_of(k)
        } else {
            -1
        }
    }

    /// No reference occurs twice.
    pub closed spec fn wf(&self) -> bool {
        self.keys().no_duplicates()
    }

    /// The references are exactly the keys of the model, each once.
    pub proof fn lemma_keys(&self)
        requires
            self.wf(),
        ensures
            self.keys().no_duplicates(),
            self.keys().len() == self.spec_len(),
            self.keys().to_set() == self@.dom(),
            self@.dom().finite(),
            self@.dom().len() == self.spec_len(),
    {
        let keys = self.keys();
        assert forall|k: Seq<char>| keys.to_set().contains(k) <==> self@.dom().contains(k) by {
            if keys.contains(k) {
                let i = keys.index_of(k);
            }
        }
        assert(keys.to_set() =~= self@.dom());
        keys.unique_seq_to_set();
    }

    /// Number of objects.
    pub closed spec fn spec_len(&self) -> nat {
        self.entries@.len()
    }

    pub fn new() -> (t: ObjectTable)
        ensures
            t.wf(),
            t@ == Map::<Seq<char>, Seq<MemberModel>>::empty(),
            t.keys() == Seq::<Seq<char>>::empty(),
            t.spec_len() == 0,
    {
        let t = ObjectTable { entries: Vec::new() };
        assert(t.keys() =~= Seq::<Seq<char>>::empty());
        assert(t@ =~= Map::<Seq<char>, Seq<MemberModel>>::empty());
        t
    }

    /// Number of objects.
    pub fn len(&self) -> (n: usize)
        ensures
            n == self.spec_len(),
    {
        self.entries.len()
    }

    /// Whether an object stands under `reference`.
    pub fn contains(&self, reference: &Reference) -> (b: bool)
        requires
            self.wf(),
        ensures
            b == self@.contains_key(reference@),
    {
        self.get(reference).is_some()
    }

    /// The object under `reference`, if there is one.
    pub fn get(&self, reference: &Reference) -> (found: Option<&Object>)
        requires
            self.wf(),
        ensures
            found.is_some() == self@.contains_key(reference@),
            found.is_some() ==> found.unwrap()@ == self@[reference@],
    {
        let mut i: usize = 0;
        while i < self.entries.len()
            invariant
                self.wf(),
                i <= self.entries@.len(),
                forall|j: int| 0 <= j < i ==> self.keys()[j] != reference@,
            decreases self.entries@.len() - i,
        {
            if self.entries[i].0.same(reference) {
                proof {
                    assert(self.keys()[i as int] == reference@);
                    assert(self.keys().contains(reference@));
                    let p = self.keys().index_of(reference@);
                    assert(self.keys()[p] == reference@);
                    assert(p == i);
                }
                return Some(&self.entries[i].1);
            }
            i += 1;
        }
        proof {
            if self.keys().contains(reference@) {
                let p = self.keys().index_of(reference@);
                assert(self.keys()[p] == reference@);
            }
        }
        None
    }

    /// The reference and object at position `i` in order of insertion.
    pub fn entry(&self, i: usize) -> (e: (&Reference, &Object))
        requires
            self.wf(),
            i < self.spec_len(),
        ensures
            self@.contains_key(e.0@),
            self@[e.0@] == e.1@,
            e.0@ == self.keys()[i as int],
    {
        proof {
            assert(self.keys()[i as int] == self.entries@[i as int].0@);
            assert(self.keys().contains(self.entries@[i as int].0@));
            let p = self.keys().index_of(self.entries@[i as int].0@);
            assert(p == i);
        }
        (&self.entries[i].0, &self.entries[i].1)
    }

    /// Adds `object` under `reference` unless the reference is taken.
    pub fn insert(&mut self, reference: Reference, object: Object) -> (added: bool)
        requires
            old(self).wf(),
        ensures
            final(self).wf(),
            added == !old(self)@.contains_key(reference@),
            added ==> final(self)@ == old(self)@.insert(reference@, object@),
            added ==> final(self).spec_len() == old(self).spec_len() + 1,
            added ==> final(self).keys() == old(self).keys().push(reference@),
            !added ==> *final(self) == *old(self),
    {
        if self.contains(&reference) {
            return false;
        }
        let ghost before = *self;
        let ghost k = reference@;
        let ghost o = object@;
        self.entries.push((reference, object));
        proof {
            let n = before.entries@.len() as int;
            assert(self.keys() =~= before.keys().push(k));
            assert(!before.keys().contains(k)) by {
                if before.keys().contains(k) {
                    let p = before.keys().index_of(k);
                }
            }
            assert(self.keys().no_duplicates());
            assert forall|q: Seq<char>| #[trigger] self.position(q) == (if q == k {
                n
            } else {
                before.position(q)
            }) by {
                if q == k {
                    assert(self.keys()[n] == k);
                    let p = self.keys().index_of(q);
                } else if before.keys().contains(q) {
                    let p = before.keys().index_of(q);
                    assert(self.keys()[p] == q);
                    let p2 = self.keys().index_of(q);
                } else if self.keys().contains(q) {
                    let p2 = self.keys().index_of(q);
                    assert(before.keys()[p2] == q);
                }
            }
            assert(self@ =~= before@.insert(k, o)) by {
                assert forall|q: Seq<char>| self@.contains_key(q) <==> before@.insert(
                    k,
                    o,
                ).contains_key(q) by {
                    let _ = self.position(q);
                }
                assert forall|q: Seq<char>| self@.contains_key(q) implies self@[q]
                    == before@.insert(k, o)[q] by {
                    let _ = self.position(q);
                }
            }
        }
        true
    }
}

/// What an evaluation request is answered with.
#[derive(Debug)]
pub enum EvalResponse {
    Success { objects: ObjectTable, value: Value },
    Failure { error: String },
}

impl EvalResponse {
    /// No reference stands twice among the objects.
    pub open spec fn keyed(&self) -> bool {
        match self {
            EvalResponse::Success { objects, .. } => objects.wf(),
            EvalResponse::Failure { .. } => true,
        }
    }

    /// A successful response is a closed graph without orphans.
    pub open spec fn wf(&self) -> bool {
        match self {
            EvalResponse::Success { objects, value } => {
                &&& objects.wf()
                &&& closed(objects@, value@)
                &&& no_orphans(objects@, value@)
            },
            EvalResponse::Failure { .. } => true,
        }
    }

    /// A successful response holds exactly the objects that its value
    /// reaches, each once: as many entries as distinct references reached,
    /// however often each is pointed at.
    pub proof fn lemma_one_entry_per_object(self)
        requires
            self.wf(),
        ensures
            (self matches EvalResponse::Success { objects, value } ==> {
                &&& objects@.dom() == reachable_set(objects@, value@)
                &&& reachable_set(objects@, value@).finite()
                &&& objects.spec_len() == reachable_set(objects@, value@).len()
            }),
    {
        match self {
            EvalResponse::Success { objects, value } => {
                lemma_closed_part(objects@, objects@, value@);
                objects.lemma_keys();
            },
            EvalResponse::Failure { .. } => {},
        }
    }

    /// The response that reports `error`.
    pub fn failure(error: String) -> (r: EvalResponse)
        ensures
            r == (EvalResponse::Failure { error }),
    {
        EvalResponse::Failure { error }
    }

    /// Whether the evaluation succeeded.
    pub fn is_success(&self) -> (b: bool)
        ensures
            b == (self is Success),
    {
        match self {
            EvalResponse::Success { .. } => true,
            EvalResponse::Failure { .. } => false,
        }
    }
}

} // verus!
