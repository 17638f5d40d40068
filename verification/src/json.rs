//! The JSON text of a response.

use vstd::prelude::*;
use crate::response::{
    EvalResponse, MemberModel, Object, ObjectMember, ObjectTable, ObjectsModel, Value, ValueModel,
};

verus! {

/// The JSON string literal for a text: quoted and escaped.
pub uninterp spec fn json_string(text: Seq<char>) -> Seq<char>;

/// The JSON text of the double with the bit pattern `bits`.
pub uninterp spec fn json_number(bits: u64) -> Seq<char>;

/// Encodes a text with `serde_json::to_string`, which quotes and escapes it
/// and does not fail on a string.
#[verifier::external_body]
fn quoted(text: &str) -> (json: String)
    ensures
        json@ == json_string(text@),
{
    serde_json::to_string(text).unwrap_or_default()
}

/// Makes the double with the bit pattern `bits` by std's `from_bits`, under
/// rlua's name for the double type, and encodes it with
/// `serde_json::to_string`, which does not fail on a number: the result is
/// a function of the bits alone.
#[verifier::external_body]
fn number_text(bits: u64) -> (json: String)
    ensures
        json@ == json_number(bits),
{
    serde_json::to_string(&rlua::prelude::LuaNumber::from_bits(bits)).unwrap_or_default()
}

/// The JSON text of a value: `null`, or an object that gives its kind.
pub open spec fn value_json(v: ValueModel) -> Seq<char> {
    match v {
        ValueModel::Null => "null"@,
        ValueModel::Number(bits) => "{\"kind\":\"number\",\"value\":"@ + json_number(bits) + "}"@,
        ValueModel::Text(s) => "{\"kind\":\"string\",\"value\":"@ + json_string(s) + "}"@,
        ValueModel::Ref(r) => "{\"kind\":\"ref\",\"value\":"@ + json_string(r) + "}"@,
    }
}

/// The JSON text of one member.
pub open spec fn member_json(m: MemberModel) -> Seq<char> {
    "{\"key\":"@ + value_json(m.key) + ",\"value\":"@ + value_json(m.value) + "}"@
}

/// The JSON texts of the members, in their order, with commas between.
pub open spec fn members_json(members: Seq<MemberModel>) -> Seq<char>
    decreases members.len(),
{
    if members.len() == 0 {
        Seq::<char>::empty()
    } else if members.len() == 1 {
        member_json(members[0])
    } else {
        members_json(members.drop_last()) + ","@ + member_json(members.last())
    }
}

/// The JSON text of one object.
pub open spec fn object_json(members: Seq<MemberModel>) -> Seq<char> {
    "{\"members\":["@ + members_json(members) + "]}"@
}

/// The JSON text of one entry of the objects.
pub open spec fn entry_json(key: Seq<char>, members: Seq<MemberModel>) -> Seq<char> {
    json_string(key) + ":"@ + object_json(members)
}

/// The JSON texts of the entries under `keys`, in that order, with commas
/// between.
pub open spec fn entries_json(keys: Seq<Seq<char>>, objs: ObjectsModel) -> Seq<char>
    decreases keys.len(),
{
    if keys.len() == 0 {
        Seq::<char>::empty()
    } else if keys.len() == 1 {
        entry_json(keys[0], objs[keys[0]])
    } else {
        entries_json(keys.drop_last(), objs) + ","@ + entry_json(keys.last(), objs[keys.last()])
    }
}

/// The JSON text of a successful response whose objects stand in the order
/// of `keys`.
pub open spec fn success_json(keys: Seq<Seq<char>>, objs: ObjectsModel, value: ValueModel) -> Seq<
    char,
> {
    "{\"success\":true,\"objects\":{"@ + entries_json(keys, objs) + "},\"value\":"@ + value_json(
        value,
    ) + "}"@
}

/// The JSON text of a failure.
pub open spec fn failure_json(error: Seq<char>) -> Seq<char> {
    "{\"success\":false,\"error\":"@ + json_string(error) + "}"@
}

impl Value {
    /// The JSON text of the value.
    pub fn to_json(&self) -> (json: String)
        ensures
            json@ == value_json(self@),
    {
        match self {
            Value::Null => String::from_str("null"),
            Value::Number(bits) => {
                let mut json = String::from_str("{\"kind\":\"number\",\"value\":");
                json.append(number_text(*bits).as_str());
                json.append("}");
                json
            },
            Value::String(s) => {
                let mut json = String::from_str("{\"kind\":\"string\",\"value\":");
                json.append(quoted(s.as_str()).as_str());
                json.append("}");
                json
            },
            Value::ObjectRef(r) => {
                let mut json = String::from_str("{\"kind\":\"ref\",\"value\":");
                json.append(quoted(r.0.as_str()).as_str());
                json.append("}");
                json
            },
        }
    }
}

impl ObjectMember {
    /// The JSON text of the member.
    pub fn to_json(&self) -> (json: String)
        ensures
            json@ == member_json(self@),
    {
        let mut json = String::from_str("{\"key\":");
        json.append(self.key.to_json().as_str());
        json.append(",\"value\":");
        json.append(self.value.to_json().as_str());
        json.append("}");
        json
    }
}

impl Object {
    /// The JSON text of the object.
    pub fn to_json(&self) -> (json: String)
        ensures
            json@ == object_json(self@),
    {
        let ghost members = self@;
        let mut list = String::new();
        let mut i: usize = 0;
        while i < self.members.len()
            invariant
                members == self@,
                i <= self.members@.len(),
                list@ == members_json(members.subrange(0, i as int)),
            decreases self.members@.len() - i,
        {
            let ghost before = members.subrange(0, i as int);
            let ghost after = members.subrange(0, i + 1);
            let piece = self.members[i].to_json();
            proof {
                assert(after.drop_last() =~= before);
                assert(after.last() == self.members@[i as int]@);
            }
            if i > 0 {
                list.append(",");
            }
            list.append(piece.as_str());
            proof {
                if i == 0 {
                    assert(list@ =~= member_json(after[0]));
                } else {
                    assert(list@ =~= members_json(before) + ","@ + member_json(after.last()));
                }
            }
            i += 1;
        }
        assert(members.subrange(0, i as int) =~= members);
        let mut json = String::from_str("{\"members\":[");
        json.append(list.as_str());
        json.append("]}");
        json
    }
}

impl ObjectTable {
    /// The JSON texts of the entries in the order in which they were added,
    /// with commas between.
    pub fn to_json(&self) -> (json: String)
        requires
            self.wf(),
        ensures
            json@ == entries_json(self.keys(), self@),
    {
        let ghost keys = self.keys();
        proof {
            self.lemma_keys();
        }
        let mut list = String::new();
        let mut i: usize = 0;
        let n = self.len();
        while i < n
            invariant
                self.wf(),
                keys == self.keys(),
                n == self.spec_len(),
                n == keys.len(),
                i <= n,
                list@ == entries_json(keys.subrange(0, i as int), self@),
            decreases n - i,
        {
            let ghost before = keys.subrange(0, i as int);
            let ghost after = keys.subrange(0, i + 1);
            let (reference, object) = self.entry(i);
            let mut piece = quoted(reference.0.as_str());
            piece.append(":");
            piece.append(object.to_json().as_str());
            proof {
                assert(after.drop_last() =~= before);
                assert(after.last() == keys[i as int]);
                assert(piece@ =~= entry_json(after.last(), self@[after.last()]));
            }
            if i > 0 {
                list.append(",");
            }
            list.append(piece.as_str());
            proof {
                if i == 0 {
                    assert(list@ =~= entry_json(after[0], self@[after[0]]));
                } else {
                    assert(list@ =~= entries_json(before, self@) + ","@ + entry_json(
                        after.last(),
                        self@[after.last()],
                    ));
                }
            }
            i += 1;
        }
        assert(keys.subrange(0, i as int) =~= keys);
        list
    }
}

impl EvalResponse {
    /// The JSON text of the response, without blanks. The objects stand in
    /// the order in which they were expanded.
    pub fn to_json(&self) -> (json: String)
        requires
            self.keyed(),
        ensures
            json@ == (match self {
                EvalResponse::Success { objects, value } => success_json(
                    objects.keys(),
                    objects@,
                    value@,
                ),
                EvalResponse::Failure { error } => failure_json(error@),
            }),
    {
        match self {
            EvalResponse::Success { objects, value } => {
                let mut json = String::from_str("{\"success\":true,\"objects\":{");
                json.append(objects.to_json().as_str());
                json.append("},\"value\":");
                json.append(value.to_json().as_str());
                json.append("}");
                json
            },
            EvalResponse::Failure { error } => {
                let mut json = String::from_str("{\"success\":false,\"error\":");
                json.append(quoted(error.as_str()).as_str());
                json.append("}");
                json
            },
        }
    }
}

} // verus!
