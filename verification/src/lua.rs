//! The Lua adapter's values, read through `rlua`, and their serialization.

use vstd::prelude::*;
use crate::response::{EvalResponse, MemberModel};
use crate::session::{evaluation_failed, evaluation_text, unreadable_object};
use crate::walk::{GraphWalk, RuntimeValue};

verus! {

/// `rlua::Table`: a handle to a table of the interpreter. Opaque here.
#[verifier::external_type_specification]
#[verifier::external_body]
pub struct ExLuaTable<'lua>(rlua::prelude::LuaTable<'lua>);

/// `rlua::Function`: a handle to a function of the interpreter. Opaque here.
#[verifier::external_type_specification]
#[verifier::external_body]
pub struct ExLuaFunction<'lua>(rlua::prelude::LuaFunction<'lua>);

/// `rlua::String`: a handle to a string of the interpreter. Opaque here.
#[verifier::external_type_specification]
#[verifier::external_body]
pub struct ExLuaString<'lua>(rlua::prelude::LuaString<'lua>);

/// `rlua::Value`: any value of the interpreter. Opaque here.
#[verifier::external_type_specification]
#[verifier::external_body]
pub struct ExLuaValue<'lua>(rlua::prelude::LuaValue<'lua>);

/// `rlua::Context`: access to the interpreter during one call. Opaque here.
#[verifier::external_type_specification]
#[verifier::external_body]
pub struct ExLuaContext<'lua>(rlua::prelude::LuaContext<'lua>);

/// `rlua::Error`: what the interpreter reports when it fails. Opaque here.
#[verifier::external_type_specification]
#[verifier::external_body]
pub struct ExLuaError(rlua::prelude::LuaError);

/// What a Lua value is, as far as serialization tells values apart.
pub enum LuaKind<'lua> {
    Nil,
    Integer(i64),
    /// A floating-point number, by the bit pattern of its double.
    Number(u64),
    Text(rlua::prelude::LuaString<'lua>),
    Table(rlua::prelude::LuaTable<'lua>),
    /// A boolean, function, thread, userdata or error.
    Other,
}

/// The bit pattern of the double that a Lua integer converts to.
pub uninterp spec fn double_of_integer(i: i64) -> u64;

/// Tells the variants of `rlua::Value` apart and moves out what they hold;
/// of a `Number` its `to_bits`. Nothing is claimed of the result.
#[verifier::external_body]
fn lua_kind<'lua>(value: rlua::prelude::LuaValue<'lua>) -> (kind: LuaKind<'lua>) {
    match value {
        rlua::prelude::LuaValue::Nil => LuaKind::Nil,
        rlua::prelude::LuaValue::Integer(i) => LuaKind::Integer(i),
        rlua::prelude::LuaValue::Number(n) => LuaKind::Number(n.to_bits()),
        rlua::prelude::LuaValue::String(s) => LuaKind::Text(s),
        rlua::prelude::LuaValue::Table(t) => LuaKind::Table(t),
        _ => LuaKind::Other,
    }
}

/// Converts an integer to the double type, under rlua's name for it, with
/// std's numeric cast and takes its `to_bits`: the nearest double, a
/// function of the integer alone.
#[verifier::external_body]
fn integer_bits(i: i64) -> (bits: u64)
    ensures
        bits == double_of_integer(i),
{
    (i as rlua::prelude::LuaNumber).to_bits()
}

/// Calls `rlua::String::to_str` and copies the text; the error is the one
/// that rlua gives for a string that is not UTF-8. Nothing is claimed of the
/// text.
#[verifier::external_body]
fn lua_text<'lua>(s: &rlua::prelude::LuaString<'lua>) -> (text: Result<String, rlua::prelude::LuaError>) {
    s.to_str().map(|t| t.to_string())
}

/// Calls `rlua::Function::call` on the interpreter's `tostring` with the
/// table as its argument, which may run a metamethod of the table. The text
/// depends on the interpreter's state, so nothing is claimed of it.
#[verifier::external_body]
fn table_name<'lua>(tostring: &rlua::prelude::LuaFunction<'lua>, table: &rlua::prelude::LuaTable<'lua>) -> (name: Result<
    String,
    rlua::prelude::LuaError,
>) {
    tostring.call(table.clone())
}

/// Walks `rlua::Table::pairs` to its end or to its first error. What the
/// table holds depends on the interpreter's state, so nothing is claimed of
/// the pairs.
#[verifier::external_body]
fn table_pairs<'lua>(table: &rlua::prelude::LuaTable<'lua>) -> (pairs: Result<
    Vec<(rlua::prelude::LuaValue<'lua>, rlua::prelude::LuaValue<'lua>)>,
    rlua::prelude::LuaError,
>) {
    table.clone().pairs::<rlua::prelude::LuaValue, rlua::prelude::LuaValue>().collect()
}

/// Reads the global `tostring` with `rlua::Context::globals` and
/// `rlua::Table::get`. Code may have replaced or removed the global, so
/// nothing is claimed of the result.
#[verifier::external_body]
fn tostring_function<'lua>(lua_ctx: rlua::prelude::LuaContext<'lua>) -> (function: Result<
    rlua::prelude::LuaFunction<'lua>,
    rlua::prelude::LuaError,
>) {
    lua_ctx.globals().get("tostring")
}

/// The text of an `rlua::Error`, by its `Display`. Nothing is claimed of it.
#[verifier::external_body]
fn error_text(error: &rlua::prelude::LuaError) -> (text: String) {
    error.to_string()
}

/// The runtime value for a Lua value of a known kind. `name` is the string
/// form of the table's identity where the kind is a table, and the text
/// where it is a string.
pub fn runtime_value<'lua>(kind: LuaKind<'lua>, name: String) -> (value: Option<
    RuntimeValue<rlua::prelude::LuaTable<'lua>>,
>)
    ensures
        value == (match kind {
            LuaKind::Nil => Some(RuntimeValue::Null),
            LuaKind::Integer(i) => Some(RuntimeValue::Number(double_of_integer(i))),
            LuaKind::Number(bits) => Some(RuntimeValue::Number(bits)),
            LuaKind::Text(_) => Some(RuntimeValue::String(name)),
            LuaKind::Table(table) => Some(RuntimeValue::Composite(name, table)),
            LuaKind::Other => None,
        }),
{
    match kind {
        LuaKind::Nil => Some(RuntimeValue::Null),
        LuaKind::Integer(i) => Some(RuntimeValue::Number(integer_bits(i))),
        LuaKind::Number(bits) => Some(RuntimeValue::Number(bits)),
        LuaKind::Text(_) => Some(RuntimeValue::String(name)),
        LuaKind::Table(table) => Some(RuntimeValue::Composite(name, table)),
        LuaKind::Other => None,
    }
}

/// Turns one Lua value into a runtime value: a table gets the string form
/// that the interpreter's `tostring` gives it as its identity. Fails with
/// the text of the error where the interpreter fails, and on a value of a
/// kind that has no wire form.
fn conv_value<'lua>(tostring: &rlua::prelude::LuaFunction<'lua>, value: rlua::prelude::LuaValue<'lua>) -> (converted:
    Result<RuntimeValue<rlua::prelude::LuaTable<'lua>>, String>) {
    let kind = lua_kind(value);
    let named = match &kind {
        LuaKind::Text(s) => lua_text(s),
        LuaKind::Table(t) => table_name(tostring, t),
        _ => Ok(String::new()),
    };
    match named {
        Err(error) => Err(error_text(&error)),
        Ok(name) => match runtime_value(kind, name) {
            Some(v) => Ok(v),
            None => Err(String::from_str("value of an unsupported kind")),
        },
    }
}

/// Converts the pairs of one table, in their order: as many members as
/// pairs, or the first failure of a conversion. A table without pairs has
/// nothing to convert and gives no members.
fn conv_members<'lua>(
    tostring: &rlua::prelude::LuaFunction<'lua>,
    pairs: Vec<(rlua::prelude::LuaValue<'lua>, rlua::prelude::LuaValue<'lua>)>,
) -> (members: Result<
    Vec<(RuntimeValue<rlua::prelude::LuaTable<'lua>>, RuntimeValue<rlua::prelude::LuaTable<'lua>>)>,
    String,
>)
    ensures
        members matches Ok(list) ==> list@.len() == pairs@.len(),
        pairs@.len() == 0 ==> members is Ok,
{
    let mut rest = pairs;
    let ghost total = rest@.len();
    let mut back: Vec<(rlua::prelude::LuaValue<'lua>, rlua::prelude::LuaValue<'lua>)> = Vec::new();
    while rest.len() > 0
        invariant
            total == pairs@.len(),
            back@.len() + rest@.len() == total,
        decreases rest@.len(),
    {
        let pair = rest.pop().unwrap();
        back.push(pair);
    }
    let mut members: Vec<(RuntimeValue<rlua::prelude::LuaTable<'lua>>, RuntimeValue<rlua::prelude::LuaTable<'lua>>)> =
        Vec::new();
    while back.len() > 0
        invariant
            total == pairs@.len(),
            members@.len() + back@.len() == total,
        decreases back@.len(),
    {
        let (lua_key, lua_value) = back.pop().unwrap();
        let key = match conv_value(tostring, lua_key) {
            Ok(k) => k,
            Err(error) => {
                return Err(error);
            },
        };
        let value = match conv_value(tostring, lua_value) {
            Ok(v) => v,
            Err(error) => {
                return Err(error);
            },
        };
        members.push((key, value));
    }
    Ok(members)
}

/// The answer to an evaluation: the serialized value where the interpreter
/// gave one, and else the failure that carries the interpreter's error.
pub fn answer<'lua>(
    lua_ctx: rlua::prelude::LuaContext<'lua>,
    evaluated: Result<rlua::prelude::LuaValue<'lua>, rlua::prelude::LuaError>,
) -> (response: EvalResponse)
    ensures
        response.wf(),
        evaluated is Err ==> (response matches EvalResponse::Failure { error } && exists|
            details: Seq<char>,
        | error@ == #[trigger] evaluation_text(details)),
{
    match evaluated {
        Ok(result) => EvalResponse::from_lua(lua_ctx, result),
        Err(error) => evaluation_failed(error_text(&error).as_str()),
    }
}

/// Serializes the graph below `root`, reading each table that it reaches
/// once, under the string form of its identity. A scalar is answered
/// without a look at the interpreter; below a table the answer depends on
/// what the interpreter hands back, and is a closed graph without orphans
/// whenever it is a success.
pub fn serialize_tables<'lua>(
    tostring: &rlua::prelude::LuaFunction<'lua>,
    root: RuntimeValue<rlua::prelude::LuaTable<'lua>>,
) -> (response: EvalResponse)
    ensures
        response.wf(),
        (response matches EvalResponse::Success { objects, value } ==> value@ == root.wire()),
        !(root is Composite) ==> (response matches EvalResponse::Success { objects, value }
            && objects@ == Map::<Seq<char>, Seq<MemberModel>>::empty()),
{
    let ghost given = root;
    let mut walk = GraphWalk::start(root);
    let mut done: usize = walk.count();
    while !walk.is_done()
        invariant
            given == root,
            walk.wf(),
            walk.root_model() == given.wire(),
            done == walk.expanded(),
            !(given is Composite) ==> walk.pending().len() == 0 && walk.objects_model()
                == Map::<Seq<char>, Seq<MemberModel>>::empty(),
        decreases usize::MAX - done,
    {
        let read = match walk.next() {
            Some((_, table)) => table_pairs(table),
            None => Ok(Vec::new()),
        };
        let pairs = match read {
            Ok(p) => p,
            Err(error) => {
                return unreadable_object(error_text(&error).as_str());
            },
        };
        let members = match conv_members(tostring, pairs) {
            Ok(m) => m,
            Err(error) => {
                return EvalResponse::Failure { error };
            },
        };
        walk.expand(members);
        done = walk.count();
    }
    walk.finish()
}

impl EvalResponse {
    /// Serializes the value that an evaluation in the interpreter behind
    /// `lua_ctx` gave. Every table that the value reaches is expanded once,
    /// so that shared and cyclic tables end the pass; tables whose string
    /// forms are equal count as one. Whatever the
    /// interpreter hands back, a success is a closed graph without orphans;
    /// an error of the interpreter, or a value of a kind without a wire
    /// form, gives a failure and no objects.
    pub fn from_lua<'lua>(
        lua_ctx: rlua::prelude::LuaContext<'lua>,
        lua_value: rlua::prelude::LuaValue<'lua>,
    ) -> (response: EvalResponse)
        ensures
            response.wf(),
    {
        let tostring = match tostring_function(lua_ctx) {
            Ok(f) => f,
            Err(error) => {
                return unreadable_object(error_text(&error).as_str());
            },
        };
        match conv_value(&tostring, lua_value) {
            Ok(root) => serialize_tables(&tostring, root),
            Err(error) => EvalResponse::Failure { error },
        }
    }
}

} // verus!
