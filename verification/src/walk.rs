//! The runtime value model and the work-list that turns a value graph into a
//! response, expanding every composite exactly once.

use vstd::prelude::*;
use vstd::seq_lib::lemma_no_dup_in_concat;
use crate::response::{
    is_path, part_of, lemma_reachable_monotone, lemma_reachable_step, member_mentions, mentions, reachable,
    EvalResponse, MemberModel, Object, ObjectMember, ObjectTable, ObjectsModel, Reference, Value,
    ValueModel,
};

verus! {

/// A value as a runtime adapter hands it over. `H` is whatever the adapter
/// needs to read a composite's members later on.
pub enum RuntimeValue<H> {
    Null,
    /// A number, held as the bit pattern of its IEEE-754 double.
    Number(u64),
    String(String),
    /// A composite object: the string form of its identity, and its handle.
    Composite(String, H),
}

impl<H> RuntimeValue<H> {
    /// The wire value that stands for this runtime value.
    pub open spec fn wire(&self) -> ValueModel {
        match self {
            RuntimeValue::Null => ValueModel::Null,
            RuntimeValue::Number(bits) => ValueModel::Number(*bits),
            RuntimeValue::String(s) => ValueModel::Text(s@),
            RuntimeValue::Composite(name, _) => ValueModel::Ref(name@),
        }
    }
}

/// The wire members that stand for the members of a composite.
pub open spec fn wire_members<H>(members: Seq<(RuntimeValue<H>, RuntimeValue<H>)>) -> Seq<
    MemberModel,
> {
    Seq::new(
        members.len(),
        |i: int| MemberModel { key: members[i].0.wire(), value: members[i].1.wire() },
    )
}

/// The references of a work-list, in its order.
pub open spec fn refs_of<H>(list: Seq<(Reference, H)>) -> Seq<Seq<char>> {
    Seq::new(list.len(), |i: int| list[i].0@)
}

/// Whether `entry` is a composite that occurs as a key or value in `members`.
pub open spec fn offered<H>(
    members: Seq<(RuntimeValue<H>, RuntimeValue<H>)>,
    entry: (Reference, H),
) -> bool {
    exists|j: int|
        0 <= j < members.len() && (#[trigger] members[j].0 == RuntimeValue::Composite(
            entry.0.0,
            entry.1,
        ) || members[j].1 == RuntimeValue::Composite(entry.0.0, entry.1))
}

/// The keys and values of `members` in the order in which they are
/// converted: each key just before its value.
pub open spec fn in_turn<H>(members: Seq<(RuntimeValue<H>, RuntimeValue<H>)>) -> Seq<
    RuntimeValue<H>,
> {
    Seq::new(
        2 * members.len(),
        |i: int|
            if i % 2 == 0 {
                members[i / 2].0
            } else {
                members[i / 2].1
            },
    )
}

/// The composites among `values` that are met for the first time: not in
/// `known` and not earlier in `values`, in the order of `values`.
pub open spec fn discovered<H>(known: Set<Seq<char>>, values: Seq<RuntimeValue<H>>) -> Seq<
    (Reference, H),
>
    decreases values.len(),
{
    if values.len() == 0 {
        Seq::<(Reference, H)>::empty()
    } else {
        let earlier = discovered(known, values.drop_last());
        match values.last() {
            RuntimeValue::Composite(name, handle) => if known.contains(name@) || refs_of(
                earlier,
            ).contains(name@) {
                earlier
            } else {
                earlier.push((Reference(name), handle))
            },
            _ => earlier,
        }
    }
}

/// Whether `name` has been met before: expanded, waiting, in expansion, or
/// found during the expansion under way.
pub open spec fn seen<H>(
    objs: ObjectsModel,
    waiting: Seq<(Reference, H)>,
    current: Option<Seq<char>>,
    fresh: Seq<(Reference, H)>,
    name: Seq<char>,
) -> bool {
    ||| objs.contains_key(name)
    ||| refs_of(waiting).contains(name)
    ||| current == Some(name)
    ||| refs_of(fresh).contains(name)
}

/// The members of `v` in the opposite order.
fn reversed<T>(v: Vec<T>) -> (r: Vec<T>)
    ensures
        r@.len() == v@.len(),
        forall|j: int| 0 <= j < r@.len() ==> r@[j] == v@[v@.len() - 1 - j],
{
    let mut v = v;
    let ghost whole = v@;
    let mut r: Vec<T> = Vec::new();
    while v.len() > 0
        invariant
            v@.len() + r@.len() == whole.len(),
            v@ == whole.subrange(0, v@.len() as int),
            forall|j: int| 0 <= j < r@.len() ==> r@[j] == whole[whole.len() - 1 - j],
        decreases v@.len(),
    {
        let item = v.pop().unwrap();
        r.push(item);
    }
    r
}

/// Whether `name` is the reference of an entry of `list`.
fn listed<H>(list: &Vec<(Reference, H)>, name: &String) -> (b: bool)
    ensures
        b == refs_of(list@).contains(name@),
{
    let mut i: usize = 0;
    while i < list.len()
        invariant
            i <= list@.len(),
            forall|j: int| 0 <= j < i ==> refs_of(list@)[j] != name@,
        decreases list@.len() - i,
    {
        if list[i].0.0 == *name {
            assert(refs_of(list@)[i as int] == name@);
            return true;
        }
        i += 1;
    }
    false
}

/// Turns one runtime value into its wire value. A composite met for the
/// first time is put on `fresh`; nothing is read from it.
fn convert<H>(
    value: RuntimeValue<H>,
    objects: &ObjectTable,
    waiting: &Vec<(Reference, H)>,
    current: Option<&Reference>,
    fresh: &mut Vec<(Reference, H)>,
) -> (v: Value)
    requires
        objects.wf(),
    ensures
        v@ == value.wire(),
        match value {
            RuntimeValue::Composite(name, handle) => if seen(
                objects@,
                waiting@,
                match current {
                    Some(c) => Some(c@),
                    None => None,
                },
                old(fresh)@,
                name@,
            ) {
                final(fresh)@ == old(fresh)@
            } else {
                final(fresh)@ == old(fresh)@.push((Reference(name), handle))
            },
            _ => final(fresh)@ == old(fresh)@,
        },
{
    match value {
        RuntimeValue::Null => Value::Null,
        RuntimeValue::Number(bits) => Value::Number(bits),
        RuntimeValue::String(s) => Value::String(s),
        RuntimeValue::Composite(name, handle) => {
            let reference = Reference(name);
            let is_current = match current {
                Some(c) => c.same(&reference),
                None => false,
            };
            let known = is_current || objects.contains(&reference) || listed(
                waiting,
                &reference.0,
            ) || listed(fresh, &reference.0);
            if !known {
                fresh.push((reference.duplicate(), handle));
            }
            Value::ObjectRef(reference)
        },
    }
}

/// The state of one serialization pass: the objects expanded so far, the
/// composites that wait for expansion, and the converted root.
pub struct GraphWalk<H> {
    objects: ObjectTable,
    waiting: Vec<(Reference, H)>,
    root: Value,
}

impl<H> GraphWalk<H> {
    /// The objects expanded so far.
    pub closed spec fn objects_model(&self) -> ObjectsModel {
        self.objects@
    }

    /// The converted root.
    pub closed spec fn root_model(&self) -> ValueModel {
        self.root@
    }

    /// The composites that wait for expansion; the last is next.
    pub closed spec fn pending(&self) -> Seq<(Reference, H)> {
        self.waiting@
    }

    /// The references of the expanded objects, in the order of expansion.
    pub closed spec fn order(&self) -> Seq<Seq<char>> {
        self.objects.keys()
    }

    /// Number of objects expanded so far.
    pub closed spec fn expanded(&self) -> nat {
        self.objects.spec_len()
    }

    /// The references of the composites that were expanded or wait for it.
    pub open spec fn known_set(&self) -> Set<Seq<char>> {
        Set::new(|r: Seq<char>| self.known(r))
    }

    /// Whether `r` names a composite that was expanded or waits for it.
    pub open spec fn known(&self, r: Seq<char>) -> bool {
        self.objects_model().contains_key(r) || refs_of(self.pending()).contains(r)
    }

    /// No composite is held twice, every reference met so far is known, and
    /// every known composite can be reached from the root.
    pub closed spec fn wf(&self) -> bool {
        &&& self.objects.wf()
        &&& refs_of(self.pending()).no_duplicates()
        &&& forall|r: Seq<char>|
            self.objects_model().contains_key(r) ==> !refs_of(self.pending()).contains(r)
        &&& forall|r: Seq<char>| self.root_model() == ValueModel::Ref(r) ==> #[trigger] self.known(r)
        &&& forall|k: Seq<char>, r: Seq<char>|
            self.objects_model().contains_key(k) && #[trigger] mentions(self.objects_model()[k], r)
                ==> self.known(r)
        &&& forall|r: Seq<char>|
            self.known(r) ==> #[trigger] reachable(self.objects_model(), self.root_model(), r)
    }

    /// In every state of a pass no composite waits twice, none waits that
    /// was expanded, every reference met so far is expanded or waits, and
    /// each of them can be reached from the root.
    pub proof fn lemma_wf(&self)
        requires
            self.wf(),
        ensures
            refs_of(self.pending()).no_duplicates(),
            forall|r: Seq<char>|
                self.objects_model().contains_key(r) ==> !refs_of(self.pending()).contains(r),
            forall|r: Seq<char>| self.root_model() == ValueModel::Ref(r) ==> #[trigger] self.known(r),
            forall|k: Seq<char>, r: Seq<char>|
                self.objects_model().contains_key(k) && #[trigger] mentions(
                    self.objects_model()[k],
                    r,
                ) ==> self.known(r),
            forall|r: Seq<char>|
                self.known(r) ==> #[trigger] reachable(
                    self.objects_model(),
                    self.root_model(),
                    r,
                ),
            self.objects_model().dom().finite(),
            self.objects_model().dom().len() == self.expanded(),
    {
        self.objects.lemma_keys();
    }

    /// Begins a pass at `root`: a scalar is done at once, a composite waits
    /// for its expansion.
    pub fn start(root: RuntimeValue<H>) -> (w: Self)
        ensures
            w.wf(),
            w.root_model() == root.wire(),
            w.objects_model() == Map::<Seq<char>, Seq<MemberModel>>::empty(),
            w.order() == Seq::<Seq<char>>::empty(),
            w.expanded() == 0,
            w.pending() == (match root {
                RuntimeValue::Composite(name, handle) => seq![(Reference(name), handle)],
                _ => Seq::<(Reference, H)>::empty(),
            }),
    {
        let objects = ObjectTable::new();
        let none: Vec<(Reference, H)> = Vec::new();
        let mut waiting: Vec<(Reference, H)> = Vec::new();
        assert(refs_of(none@) =~= Seq::<Seq<char>>::empty());
        assert(refs_of(waiting@) =~= Seq::<Seq<char>>::empty());
        let ghost given = root;
        let value = convert(root, &objects, &none, None, &mut waiting);
        let w = GraphWalk { objects, waiting, root: value };
        proof {
            match given {
                RuntimeValue::Composite(name, handle) => {
                    assert(w.pending() =~= seq![(Reference(name), handle)]);
                    assert(refs_of(w.pending()) =~= seq![name@]);
                    assert(refs_of(w.pending())[0] == name@);
                    let path = seq![name@];
                    assert(is_path(w.objects_model(), w.root_model(), path));
                    assert(path.last() == name@);
                    assert(reachable(w.objects_model(), w.root_model(), name@));
                },
                _ => {
                    assert(w.pending() =~= Seq::<(Reference, H)>::empty());
                },
            }
        }
        w
    }

    /// Number of objects expanded so far.
    pub fn count(&self) -> (n: usize)
        ensures
            n == self.expanded(),
    {
        self.objects.len()
    }

    /// Whether nothing waits for expansion.
    pub fn is_done(&self) -> (b: bool)
        ensures
            b == (self.pending().len() == 0),
    {
        self.waiting.len() == 0
    }

    /// The composite to expand next, if any waits.
    pub fn next(&self) -> (top: Option<(&Reference, &H)>)
        ensures
            top.is_some() == (self.pending().len() > 0),
            top.is_some() ==> *top.unwrap().0 == self.pending().last().0 && *top.unwrap().1
                == self.pending().last().1,
    {
        let n = self.waiting.len();
        if n == 0 {
            None
        } else {
            Some((&self.waiting[n - 1].0, &self.waiting[n - 1].1))
        }
    }

    /// Expands the composite that is next, whose members are `members`:
    /// converts them in order, records the object, and lets every composite
    /// met for the first time wait for its own expansion.
    pub fn expand(&mut self, members: Vec<(RuntimeValue<H>, RuntimeValue<H>)>)
        requires
            old(self).wf(),
            old(self).pending().len() > 0,
        ensures
            final(self).wf(),
            final(self).root_model() == old(self).root_model(),
            !old(self).objects_model().contains_key(old(self).pending().last().0@),
            final(self).objects_model() == old(self).objects_model().insert(
                old(self).pending().last().0@,
                wire_members(members@),
            ),
            final(self).expanded() == old(self).expanded() + 1,
            final(self).order() == old(self).order().push(old(self).pending().last().0@),
            final(self).pending() == old(self).pending().drop_last() + discovered(
                old(self).known_set(),
                in_turn(members@),
            ),
            final(self).pending().len() >= old(self).pending().len() - 1,
            final(self).pending().subrange(0, old(self).pending().len() - 1) == old(
                self,
            ).pending().drop_last(),
            forall|i: int|
                old(self).pending().len() - 1 <= i < final(self).pending().len() ==> offered(
                    members@,
                    #[trigger] final(self).pending()[i],
                ) && !old(self).known(final(self).pending()[i].0@),
    {
        let ghost before = *self;
        let ghost ms = members@;
        let ghost wm = wire_members(ms);
        let ghost n = ms.len() as int;
        let (top, _) = self.waiting.pop().unwrap();
        let ghost kept = self.waiting@;
        let ghost objs = self.objects@;
        proof {
            assert(kept == before.waiting@.drop_last());
            assert(refs_of(before.waiting@)[kept.len() as int] == top@);
            assert(refs_of(kept) =~= refs_of(before.waiting@).drop_last());
            assert(!refs_of(kept).contains(top@)) by {
                if refs_of(kept).contains(top@) {
                    let j = refs_of(kept).index_of(top@);
                    assert(refs_of(before.waiting@)[j] == top@);
                }
            }
            assert(before.wf());
            assert(objs == before.objects_model());
            assert(refs_of(before.pending()).contains(top@));
            assert(!objs.contains_key(top@));
            assert(before.known(top@));
            assert(reachable(objs, before.root@, top@));
        }
        let mut rest = reversed(members);
        let total = rest.len();
        let mut out: Vec<ObjectMember> = Vec::new();
        let mut fresh: Vec<(Reference, H)> = Vec::new();
        assert(refs_of(fresh@) =~= Seq::<Seq<char>>::empty());
        let mut i: usize = 0;
        while rest.len() > 0
            invariant
                self.objects == before.objects,
                self.waiting@ == kept,
                self.root == before.root,
                self.objects.wf(),
                objs == self.objects@,
                wm == wire_members(ms),
                n == ms.len(),
                n == total,
                i + rest@.len() == n,
                forall|j: int| 0 <= j < rest@.len() ==> rest@[j] == ms[n - 1 - j],
                out@.len() == i,
                forall|j: int| 0 <= j < i ==> (#[trigger] out@[j])@ == wm[j],
                before.waiting@.len() > 0,
                kept == before.waiting@.drop_last(),
                before.waiting@.last().0@ == top@,
                objs == before.objects_model(),
                fresh@ == discovered(before.known_set(), in_turn(ms).subrange(0, 2 * i)),
                refs_of(fresh@).no_duplicates(),
                forall|j: int|
                    0 <= j < fresh@.len() ==> {
                        &&& !objs.contains_key((#[trigger] fresh@[j]).0@)
                        &&& !refs_of(kept).contains(fresh@[j].0@)
                        &&& fresh@[j].0@ != top@
                        &&& offered(ms, fresh@[j])
                        &&& exists|m: int| 0 <= m < i && member_mentions(#[trigger] wm[m], fresh@[j].0@)
                    },
                forall|m: int, r: Seq<char>|
                    0 <= m < i && #[trigger] member_mentions(wm[m], r) ==> seen(
                        objs,
                        kept,
                        Some(top@),
                        fresh@,
                        r,
                    ),
            decreases rest@.len(),
        {
            let ghost fresh0 = fresh@;
            let (rk, rv) = rest.pop().unwrap();
            let ghost k = rk;
            let ghost v = rv;
            assert(k == ms[i as int].0 && v == ms[i as int].1);
            let key = convert(rk, &self.objects, &self.waiting, Some(&top), &mut fresh);
            let ghost fresh1 = fresh@;
            let value = convert(rv, &self.objects, &self.waiting, Some(&top), &mut fresh);
            let ghost fresh2 = fresh@;
            out.push(ObjectMember { key, value });
            proof {
                let turn = in_turn(ms);
                let known = before.known_set();
                assert(turn.subrange(0, 2 * i + 1).drop_last() =~= turn.subrange(0, 2 * i));
                assert(turn.subrange(0, 2 * i + 2).drop_last() =~= turn.subrange(0, 2 * i + 1));
                assert(turn.subrange(0, 2 * i + 1).last() == k);
                assert(turn.subrange(0, 2 * i + 2).last() == v);
                match k {
                    RuntimeValue::Composite(name, _) => {
                        lemma_listed_last(before.waiting@, name@);
                        assert(known.contains(name@) == before.known(name@));
                    },
                    _ => {},
                }
                assert(fresh1 == discovered(known, turn.subrange(0, 2 * i + 1)));
                match v {
                    RuntimeValue::Composite(name, _) => {
                        lemma_listed_last(before.waiting@, name@);
                        assert(known.contains(name@) == before.known(name@));
                    },
                    _ => {},
                }
                assert(fresh2 == discovered(known, turn.subrange(0, 2 * i + 2)));
                lemma_grown(objs, kept, top@, ms, fresh0, fresh1, k, i as int, i as int);
                lemma_grown(objs, kept, top@, ms, fresh1, fresh2, v, i as int, i as int);
                assert(wm[i as int] == MemberModel { key: k.wire(), value: v.wire() });
                assert forall|j: int| 0 <= j < fresh2.len() implies {
                    &&& !objs.contains_key((#[trigger] fresh2[j]).0@)
                    &&& !refs_of(kept).contains(fresh2[j].0@)
                    &&& fresh2[j].0@ != top@
                    &&& offered(ms, fresh2[j])
                    &&& exists|m: int|
                        0 <= m < i + 1 && member_mentions(#[trigger] wm[m], fresh2[j].0@)
                } by {
                    if j < fresh0.len() {
                        assert(fresh2[j] == fresh0[j]);
                        let m = choose|m: int|
                            0 <= m < i && member_mentions(#[trigger] wm[m], fresh0[j].0@);
                        assert(member_mentions(wm[m], fresh2[j].0@));
                    } else {
                        assert(member_mentions(wm[i as int], fresh2[j].0@));
                    }
                }
                assert forall|m: int, r: Seq<char>|
                    0 <= m < i + 1 && #[trigger] member_mentions(wm[m], r) implies seen(
                    objs,
                    kept,
                    Some(top@),
                    fresh2,
                    r,
                ) by {
                    if m < i {
                        assert(seen(objs, kept, Some(top@), fresh0, r));
                        if refs_of(fresh0).contains(r) {
                            assert(refs_of(fresh1).contains(r));
                            assert(refs_of(fresh2).contains(r));
                        }
                    } else {
                        if k.wire() == ValueModel::Ref(r) {
                            assert(seen(objs, kept, Some(top@), fresh1, r));
                            if refs_of(fresh1).contains(r) {
                                assert(refs_of(fresh2).contains(r));
                            }
                        } else {
                            assert(v.wire() == ValueModel::Ref(r));
                            assert(seen(objs, kept, Some(top@), fresh2, r));
                        }
                    }
                }
            }
            i += 1;
        }
        let object = Object { members: out };
        assert(object@ =~= wm);
        let added = self.objects.insert(top.duplicate(), object);
        assert(added);
        let ghost fresh_all = fresh@;
        assert(in_turn(ms).subrange(0, 2 * i) =~= in_turn(ms));
        self.waiting.append(&mut fresh);
        proof {
            let objs2 = self.objects@;
            let pend = self.waiting@;
            let old_pend = before.waiting@;
            assert(pend == kept + fresh_all);
            assert(refs_of(pend) =~= refs_of(kept) + refs_of(fresh_all));
            assert(pend.subrange(0, kept.len() as int) =~= kept);
            assert(refs_of(kept).no_duplicates());
            assert forall|a: int, b: int|
                0 <= a < refs_of(kept).len() && 0 <= b < refs_of(fresh_all).len() implies refs_of(
                kept,
            )[a] != refs_of(fresh_all)[b] by {
                assert(refs_of(fresh_all)[b] == fresh_all[b].0@);
                if refs_of(kept)[a] == refs_of(fresh_all)[b] {
                    assert(refs_of(kept).contains(fresh_all[b].0@));
                }
            }
            lemma_no_dup_in_concat(refs_of(kept), refs_of(fresh_all));
            // what this expansion found is mentioned by the new object, and was met for the first time
            assert forall|r: Seq<char>| refs_of(fresh_all).contains(r) implies mentions(wm, r)
                && !objs.contains_key(r) && !refs_of(kept).contains(r) && r != top@ by {
                let j = refs_of(fresh_all).index_of(r);
                assert(refs_of(fresh_all)[j] == r);
                assert(fresh_all[j].0@ == r);
                let m = choose|m: int| 0 <= m < n && member_mentions(#[trigger] wm[m], fresh_all[j].0@);
                assert(member_mentions(wm[m], r));
            }
            // how being known before relates to being known now
            assert forall|r: Seq<char>| #[trigger] self.known(r) <==> (before.known(r) || refs_of(
                fresh_all,
            ).contains(r)) by {
                lemma_listed_concat(kept, fresh_all, r);
                lemma_listed_last(old_pend, r);
            }
            assert forall|r: Seq<char>| objs2.contains_key(r) implies !refs_of(pend).contains(
                r,
            ) by {
                lemma_listed_concat(kept, fresh_all, r);
                lemma_listed_last(old_pend, r);
            }
            assert forall|r: Seq<char>| self.root@ == ValueModel::Ref(r) implies #[trigger] self.known(r) by {
                assert(before.known(r));
            }
            assert forall|k: Seq<char>, r: Seq<char>|
                objs2.contains_key(k) && #[trigger] mentions(objs2[k], r) implies self.known(r) by {
                lemma_listed_concat(kept, fresh_all, r);
                lemma_listed_last(old_pend, r);
                if k == top@ {
                    let m = choose|m: int| 0 <= m < wm.len() && member_mentions(#[trigger] wm[m], r);
                    assert(member_mentions(wm[m], r));
                    assert(seen(objs, kept, Some(top@), fresh_all, r));
                } else {
                    assert(objs.contains_key(k));
                    assert(mentions(before.objects_model()[k], r));
                    assert(before.known(r));
                }
            }
            assert forall|r: Seq<char>| self.known(r) implies #[trigger] reachable(
                objs2,
                self.root@,
                r,
            ) by {
                assert(part_of(objs, objs2));
                lemma_reachable_monotone(objs, objs2, self.root@, top@);
                if refs_of(fresh_all).contains(r) {
                    lemma_reachable_step(objs2, self.root@, top@, r);
                } else {
                    assert(before.known(r));
                    assert(reachable(before.objects_model(), before.root_model(), r));
                    lemma_reachable_monotone(objs, objs2, self.root@, r);
                }
            }
            assert forall|j: int| old_pend.len() - 1 <= j < pend.len() implies offered(
                ms,
                #[trigger] pend[j],
            ) && !before.known(pend[j].0@) by {
                let e = fresh_all[j - kept.len()];
                assert(pend[j] == e);
                lemma_listed_last(old_pend, e.0@);
            }
        }
    }

    /// Ends a pass in which nothing waits any more: the root and the objects
    /// become a successful response.
    pub fn finish(self) -> (response: EvalResponse)
        requires
            self.wf(),
            self.pending().len() == 0,
        ensures
            response.wf(),
            (response matches EvalResponse::Success { objects, value } && objects@
                == self.objects_model() && objects.keys() == self.order() && value@
                == self.root_model() && objects.spec_len() == self.expanded()),
    {
        proof {
            assert(refs_of(self.pending()) =~= Seq::<Seq<char>>::empty());
            assert forall|r: Seq<char>| self.root@ == ValueModel::Ref(r) implies self.objects@.contains_key(
                r,
            ) by {
                assert(self.known(r));
            }
            assert forall|k: Seq<char>, r: Seq<char>|
                self.objects@.contains_key(k) && #[trigger] mentions(
                    self.objects@[k],
                    r,
                ) implies self.objects@.contains_key(r) by {
                assert(self.known(r));
            }
            assert forall|k: Seq<char>| self.objects@.contains_key(k) implies #[trigger] reachable(
                self.objects@,
                self.root@,
                k,
            ) by {
                assert(self.known(k));
            }
        }
        EvalResponse::Success { objects: self.objects, value: self.root }
    }
}

/// After a conversion the found composites are the old ones, and at most
/// the converted value in addition, which was then met for the first time.
proof fn lemma_grown<H>(
    objs: ObjectsModel,
    kept: Seq<(Reference, H)>,
    top: Seq<char>,
    members: Seq<(RuntimeValue<H>, RuntimeValue<H>)>,
    fresh0: Seq<(Reference, H)>,
    fresh1: Seq<(Reference, H)>,
    v: RuntimeValue<H>,
    at: int,
    i: int,
)
    requires
        0 <= at < members.len(),
        members[at].0 == v || members[at].1 == v,
        refs_of(fresh0).no_duplicates(),
        match v {
            RuntimeValue::Composite(name, handle) => if seen(objs, kept, Some(top), fresh0, name@) {
                fresh1 == fresh0
            } else {
                fresh1 == fresh0.push((Reference(name), handle))
            },
            _ => fresh1 == fresh0,
        },
    ensures
        refs_of(fresh1).no_duplicates(),
        fresh1.len() >= fresh0.len(),
        forall|j: int| 0 <= j < fresh0.len() ==> fresh1[j] == fresh0[j],
        forall|j: int|
            fresh0.len() <= j < fresh1.len() ==> {
                &&& !objs.contains_key((#[trigger] fresh1[j]).0@)
                &&& !refs_of(kept).contains(fresh1[j].0@)
                &&& fresh1[j].0@ != top
                &&& offered(members, fresh1[j])
                &&& v.wire() == ValueModel::Ref(fresh1[j].0@)
            },
        forall|r: Seq<char>|
            v.wire() == ValueModel::Ref(r) ==> #[trigger] seen(objs, kept, Some(top), fresh1, r),
        forall|r: Seq<char>| refs_of(fresh0).contains(r) ==> #[trigger] refs_of(fresh1).contains(r),
{
    assert forall|r: Seq<char>| refs_of(fresh0).contains(r) implies #[trigger] refs_of(
        fresh1,
    ).contains(r) by {
        let j = refs_of(fresh0).index_of(r);
        assert(refs_of(fresh0)[j] == r);
        if fresh1 != fresh0 {
            assert(fresh1.len() == fresh0.len() + 1);
            assert(fresh1[j] == fresh0[j]);
        }
        assert(refs_of(fresh1)[j] == r);
    }
    match v {
        RuntimeValue::Composite(name, handle) => {
            if !seen(objs, kept, Some(top), fresh0, name@) {
                let e = (Reference(name), handle);
                assert(refs_of(fresh1) =~= refs_of(fresh0).push(name@));
                assert(refs_of(fresh1)[fresh0.len() as int] == name@);
                assert(fresh1[fresh0.len() as int] == e);
                assert(members[at].0 == RuntimeValue::Composite(e.0.0, e.1) || members[at].1
                    == RuntimeValue::Composite(e.0.0, e.1));
                assert(offered(members, e));
                assert forall|a: int, b: int|
                    0 <= a < b < refs_of(fresh1).len() implies refs_of(fresh1)[a] != refs_of(
                    fresh1,
                )[b] by {
                    if b == fresh0.len() {
                        assert(refs_of(fresh0)[a] == refs_of(fresh1)[a]);
                    } else {
                        assert(refs_of(fresh0)[a] == refs_of(fresh1)[a]);
                        assert(refs_of(fresh0)[b] == refs_of(fresh1)[b]);
                    }
                }
            }
        },
        _ => {},
    }
}

/// A work-list put behind another holds what either holds.
proof fn lemma_listed_concat<H>(a: Seq<(Reference, H)>, b: Seq<(Reference, H)>, r: Seq<char>)
    ensures
        refs_of(a + b).contains(r) <==> refs_of(a).contains(r) || refs_of(b).contains(r),
{
    assert(refs_of(a + b) =~= refs_of(a) + refs_of(b));
    if refs_of(a).contains(r) {
        let j = refs_of(a).index_of(r);
        assert((refs_of(a) + refs_of(b))[j] == r);
    }
    if refs_of(b).contains(r) {
        let j = refs_of(b).index_of(r);
        assert((refs_of(a) + refs_of(b))[a.len() + j] == r);
    }
    if refs_of(a + b).contains(r) {
        let j = refs_of(a + b).index_of(r);
        if j < a.len() {
            assert(refs_of(a)[j] == r);
        } else {
            assert(refs_of(b)[j - a.len()] == r);
        }
    }
}

/// A work-list holds what it holds without its last entry, and that entry.
proof fn lemma_listed_last<H>(list: Seq<(Reference, H)>, r: Seq<char>)
    requires
        list.len() > 0,
    ensures
        refs_of(list).contains(r) <==> refs_of(list.drop_last()).contains(r) || list.last().0@ == r,
{
    let front = list.drop_last();
    assert(list =~= front + seq![list.last()]);
    lemma_listed_concat(front, seq![list.last()], r);
    if refs_of(seq![list.last()]).contains(r) {
        let j = refs_of(seq![list.last()]).index_of(r);
        assert(refs_of(seq![list.last()])[j] == r);
    }
    if list.last().0@ == r {
        assert(refs_of(seq![list.last()])[0] == r);
    }
}

} // verus!
