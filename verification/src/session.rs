//! Sessions, the adapters that each of them holds, and what a request for
//! an evaluation is answered with before any code runs.

use vstd::prelude::*;
use crate::lua::answer;
use crate::response::EvalResponse;

verus! {

/// `rlua::Lua`: one interpreter instance with its globals. Opaque here.
#[verifier::external_type_specification]
#[verifier::external_body]
pub struct ExInterpreter(rlua::Lua);

/// Whether the language that goes by `name` has a runtime adapter.
pub open spec fn supported(name: Seq<char>) -> bool {
    name == "lua"@
}

/// The error text for a language without an adapter.
pub open spec fn unsupported_text(name: Seq<char>) -> Seq<char> {
    "language `"@ + name + "` not supported"@
}

/// The error text for a session that is not registered.
pub open spec fn not_found_text(id: Seq<char>) -> Seq<char> {
    "session `"@ + id + "` not found"@
}

/// The error text for code that failed to evaluate.
pub open spec fn evaluation_text(details: Seq<char>) -> Seq<char> {
    "failed to evaluate code: "@ + details
}

/// The error text for a composite that could not be read.
pub open spec fn unreadable_text(details: Seq<char>) -> Seq<char> {
    "unable to serialize object: "@ + details
}

/// The answer to a request for a language without an adapter.
pub fn unsupported_language(name: &str) -> (response: EvalResponse)
    ensures
        (response matches EvalResponse::Failure { error } && error@ == unsupported_text(name@)),
{
    let mut error = String::from_str("language `");
    error.append(name);
    error.append("` not supported");
    EvalResponse::Failure { error }
}

/// The answer to a request for a session that is not registered.
pub fn session_not_found(id: &str) -> (response: EvalResponse)
    ensures
        (response matches EvalResponse::Failure { error } && error@ == not_found_text(id@)),
{
    let mut error = String::from_str("session `");
    error.append(id);
    error.append("` not found");
    EvalResponse::Failure { error }
}

/// The answer to a request whose code the adapter could not evaluate.
pub fn evaluation_failed(details: &str) -> (response: EvalResponse)
    ensures
        (response matches EvalResponse::Failure { error } && error@ == evaluation_text(details@)),
{
    let mut error = String::from_str("failed to evaluate code: ");
    error.append(details);
    EvalResponse::Failure { error }
}

/// The answer when a composite could not be read during serialization.
pub fn unreadable_object(details: &str) -> (response: EvalResponse)
    ensures
        (response matches EvalResponse::Failure { error } && error@ == unreadable_text(details@)),
{
    let mut error = String::from_str("unable to serialize object: ");
    error.append(details);
    EvalResponse::Failure { error }
}

/// One runtime adapter: the interpreter instance of one language in one
/// session. Globals that code defines stay in it for later evaluations.
#[derive(Debug)]
pub enum SessionLang {
    Lua(rlua::Lua),
}

impl SessionLang {
    /// The name of the adapter's language.
    pub open spec fn language(&self) -> Seq<char> {
        match self {
            SessionLang::Lua(_) => "lua"@,
        }
    }

    /// The name under which requests ask for the adapter's language.
    pub fn name(&self) -> (name: &'static str)
        ensures
            name@ == self.language(),
            supported(name@),
    {
        match self {
            SessionLang::Lua(_) => "lua",
        }
    }

    /// Whether the language that goes by `language` has an adapter.
    pub fn supports(language: &str) -> (b: bool)
        ensures
            b == supported(language@),
    {
        let given = String::from_str(language);
        let lua = String::from_str("lua");
        given == lua
    }

    /// A fresh adapter for `language`, or nothing where no adapter exists
    /// for it.
    pub fn create(language: &str) -> (created: Option<SessionLang>)
        ensures
            created.is_some() == supported(language@),
            created.is_some() ==> created.unwrap().language() == language@,
    {
        if SessionLang::supports(language) {
            Some(SessionLang::Lua(new_interpreter()))
        } else {
            None
        }
    }

    /// Evaluates `code` against the adapter's interpreter and serializes
    /// what it gives. Whatever the code does, the answer is well formed.
    pub fn evaluate(&self, code: &str) -> (response: EvalResponse)
        ensures
            response.wf(),
    {
        match self {
            SessionLang::Lua(lua) => evaluate_lua(lua, code),
        }
    }
}

/// The adapters of one session, at most one for each language, each
/// created when its language is first asked for.
#[derive(Debug)]
pub struct SessionRuntimeMap {
    adapters: Vec<SessionLang>,
}

impl SessionRuntimeMap {
    /// The languages that have an adapter, by slot.
    pub closed spec fn languages(&self) -> Seq<Seq<char>> {
        Seq::new(self.adapters@.len(), |i: int| self.adapters@[i].language())
    }

    /// The adapters, by slot.
    pub closed spec fn adapters(&self) -> Seq<SessionLang> {
        self.adapters@
    }

    /// No language has two adapters, and every adapter's language is one
    /// that is supported.
    pub open spec fn wf(&self) -> bool {
        &&& self.languages().no_duplicates()
        &&& self.adapters().len() == self.languages().len()
        &&& forall|i: int|
            0 <= i < self.languages().len() ==> supported(#[trigger] self.languages()[i])
    }

    /// The map of a session in which nothing was evaluated yet.
    pub fn new() -> (m: Self)
        ensures
            m.wf(),
            m.languages() == Seq::<Seq<char>>::empty(),
            m.adapters() == Seq::<SessionLang>::empty(),
    {
        let m = SessionRuntimeMap { adapters: Vec::new() };
        assert(m.languages() =~= Seq::<Seq<char>>::empty());
        m
    }

    /// Number of adapters.
    pub fn len(&self) -> (n: usize)
        ensures
            n == self.languages().len(),
            n == self.adapters().len(),
    {
        self.adapters.len()
    }

    /// The slot of the adapter for `language`, if the session holds one.
    pub fn slot_of(&self, language: &str) -> (slot: Option<usize>)
        ensures
            slot.is_some() == self.languages().contains(language@),
            slot.is_some() ==> slot.unwrap() < self.languages().len() && self.languages()[slot.unwrap() as int]
                == language@,
    {
        let given = String::from_str(language);
        let mut i: usize = 0;
        while i < self.adapters.len()
            invariant
                given@ == language@,
                i <= self.adapters@.len(),
                forall|j: int| 0 <= j < i ==> self.languages()[j] != language@,
            decreases self.adapters@.len() - i,
        {
            let name = String::from_str(self.adapters[i].name());
            assert(self.languages()[i as int] == name@);
            if name == given {
                return Some(i);
            }
            i += 1;
        }
        None
    }

    /// The adapter in `slot`.
    pub fn adapter(&self, slot: usize) -> (found: Option<&SessionLang>)
        ensures
            found.is_some() == (slot < self.adapters().len()),
            found.is_some() ==> *found.unwrap() == self.adapters()[slot as int],
    {
        if slot < self.adapters.len() {
            Some(&self.adapters[slot])
        } else {
            None
        }
    }

    /// The slot of the adapter for `language`: the one that the session
    /// holds, or else a fresh one, which is stored. A language without an
    /// adapter gives the failure that says so, and nothing is stored.
    pub fn get_or_create(&mut self, language: &str) -> (found: Result<usize, EvalResponse>)
        requires
            old(self).wf(),
        ensures
            final(self).wf(),
            !supported(language@) ==> *final(self) == *old(self) && (found matches Err(
                response,
            ) && (response matches EvalResponse::Failure { error } && error@ == unsupported_text(
                language@,
            ))),
            supported(language@) ==> (found matches Ok(slot) && slot < final(self).languages().len()
                && final(self).languages()[slot as int] == language@),
            old(self).languages().contains(language@) ==> *final(self) == *old(self),
            supported(language@) && !old(self).languages().contains(language@) ==> {
                &&& final(self).languages() == old(self).languages().push(language@)
                &&& final(self).adapters().drop_last() == old(self).adapters()
                &&& found == Ok::<usize, EvalResponse>(old(self).languages().len() as usize)
            },
    {
        match self.slot_of(language) {
            Some(slot) => Ok(slot),
            None => match SessionLang::create(language) {
                None => Err(unsupported_language(language)),
                Some(adapter) => {
                    let ghost before = *self;
                    let slot = self.adapters.len();
                    self.adapters.push(adapter);
                    proof {
                        assert(self.languages() =~= before.languages().push(language@));
                        assert(self.adapters().drop_last() =~= before.adapters());
                    }
                    Ok(slot)
                },
            },
        }
    }

    /// Serves one request: finds or creates the adapter for `language` and
    /// evaluates `code` against it. A language without an adapter gives the
    /// failure that says so, and the session stays as it was.
    pub fn evaluate(&mut self, language: &str, code: &str) -> (response: EvalResponse)
        requires
            old(self).wf(),
        ensures
            final(self).wf(),
            response.wf(),
            !supported(language@) ==> *final(self) == *old(self) && (
            response matches EvalResponse::Failure { error } && error@ == unsupported_text(
                language@,
            )),
            old(self).languages().contains(language@) ==> *final(self) == *old(self),
            supported(language@) && !old(self).languages().contains(language@) ==> {
                &&& final(self).languages() == old(self).languages().push(language@)
                &&& final(self).adapters().drop_last() == old(self).adapters()
            },
    {
        match self.get_or_create(language) {
            Err(response) => response,
            Ok(slot) => match self.adapter(slot) {
                Some(adapter) => adapter.evaluate(code),
                None => unsupported_language(language),
            },
        }
    }
}

/// Creates an interpreter with `rlua::Lua::new`: a Lua state of its own
/// with the standard library. Nothing is claimed of it.
#[verifier::external_body]
fn new_interpreter() -> (lua: rlua::Lua) {
    rlua::Lua::new()
}

/// Runs `code` with `rlua::Lua::context`, `rlua::Context::load` and
/// `rlua::Chunk::eval`, and hands what the interpreter gave to `answer`.
/// The call returns when the code does. The result is the one of `answer`,
/// of which this claims what `answer` ensures of every input.
#[verifier::external_body]
fn evaluate_lua(lua: &rlua::Lua, code: &str) -> (response: EvalResponse)
    ensures
        response.wf(),
{
    lua.context(|ctx| answer(ctx, ctx.load(code).eval::<rlua::prelude::LuaValue>()))
}

/// Generates a session identifier with `uuid::Uuid::new_v4` and writes it as
/// text with its `Display`. The identifier is random, so nothing is said of
/// its letters: only that it is the hyphenated form, 36 characters long.
#[verifier::external_body]
fn fresh_identifier() -> (id: String)
    ensures
        id@.len() == 36,
{
    uuid::Uuid::new_v4().to_string()
}

/// The sessions of the process, each under its identifier. `M` is what a
/// session holds: its runtime map, behind whatever guards it.
pub struct SessionStore<M> {
    sessions: Vec<(String, M)>,
}

impl<M> SessionStore<M> {
    /// The identifiers in the order of registration.
    pub closed spec fn ids(&self) -> Seq<Seq<char>> {
        Seq::new(self.sessions@.len(), |i: int| self.sessions@[i].0@)
    }

    /// What the sessions hold, in the order of registration.
    pub closed spec fn contents(&self) -> Seq<M> {
        Seq::new(self.sessions@.len(), |i: int| self.sessions@[i].1)
    }

    /// No identifier is registered twice.
    pub open spec fn wf(&self) -> bool {
        &&& self.ids().no_duplicates()
        &&& self.contents().len() == self.ids().len()
    }

    /// The store without sessions.
    pub fn new() -> (s: Self)
        ensures
            s.wf(),
            s.ids() == Seq::<Seq<char>>::empty(),
    {
        let s = SessionStore { sessions: Vec::new() };
        assert(s.ids() =~= Seq::<Seq<char>>::empty());
        s
    }

    /// Number of sessions.
    pub fn len(&self) -> (n: usize)
        ensures
            n == self.ids().len(),
    {
        self.sessions.len()
    }

    /// Position of the session `id`, if it is registered.
    fn position(&self, id: &String) -> (at: Option<usize>)
        ensures
            at.is_some() == self.ids().contains(id@),
            at.is_some() ==> at.unwrap() < self.ids().len() && self.ids()[at.unwrap() as int]
                == id@,
    {
        let mut i: usize = 0;
        while i < self.sessions.len()
            invariant
                i <= self.sessions@.len(),
                forall|j: int| 0 <= j < i ==> self.ids()[j] != id@,
            decreases self.sessions@.len() - i,
        {
            if self.sessions[i].0 == *id {
                assert(self.ids()[i as int] == id@);
                return Some(i);
            }
            i += 1;
        }
        None
    }

    /// Whether a session is registered under `id`.
    pub fn contains(&self, id: &str) -> (b: bool)
        ensures
            b == self.ids().contains(id@),
    {
        let key = String::from_str(id);
        self.position(&key).is_some()
    }

    /// What the session `id` holds, or nothing if no such session exists.
    pub fn get(&self, id: &str) -> (found: Option<&M>)
        requires
            self.wf(),
        ensures
            found.is_some() == self.ids().contains(id@),
            found.is_some() ==> *found.unwrap() == self.contents()[self.ids().index_of(id@)],
    {
        let key = String::from_str(id);
        match self.position(&key) {
            Some(at) => {
                proof {
                    let p = self.ids().index_of(id@);
                    assert(self.ids()[p] == id@);
                    assert(p == at);
                }
                Some(&self.sessions[at].1)
            },
            None => None,
        }
    }

    /// Registers a session under `id`, unless the identifier is taken.
    pub fn register(&mut self, id: String, content: M) -> (added: bool)
        requires
            old(self).wf(),
        ensures
            final(self).wf(),
            added == !old(self).ids().contains(id@),
            added ==> final(self).ids() == old(self).ids().push(id@) && final(self).contents()
                == old(self).contents().push(content),
            !added ==> *final(self) == *old(self),
    {
        if self.position(&id).is_some() {
            return false;
        }
        let ghost before = *self;
        let ghost key = id@;
        self.sessions.push((id, content));
        proof {
            assert(self.ids() =~= before.ids().push(key));
            assert(self.contents() =~= before.contents().push(content));
        }
        true
    }

    /// Creates a session that holds `content` under a fresh identifier and
    /// gives the identifier. An identifier that is already taken registers
    /// nothing: the caller draws again. That happens only where the store
    /// holds the identifier that was drawn, one of 36 characters; a store
    /// without such an identifier, an empty one among them, always gets its
    /// session.
    pub fn create(&mut self, content: M) -> (created: Option<String>)
        requires
            old(self).wf(),
        ensures
            final(self).wf(),
            match created {
                Some(id) => {
                    &&& id@.len() == 36
                    &&& !old(self).ids().contains(id@)
                    &&& final(self).ids() == old(self).ids().push(id@)
                    &&& final(self).contents() == old(self).contents().push(content)
                },
                None => {
                    &&& *final(self) == *old(self)
                    &&& exists|taken: Seq<char>|
                        taken.len() == 36 && #[trigger] old(self).ids().contains(taken)
                },
            },
    {
        let id = fresh_identifier();
        let given = id.clone();
        if self.register(id, content) {
            Some(given)
        } else {
            assert(old(self).ids().contains(given@));
            None
        }
    }

    /// A session that was registered is found under its identifier, holds
    /// what it was registered with, and leaves every other session as it was.
    pub proof fn lemma_registered(before: Self, after: Self, id: Seq<char>, content: M)
        requires
            before.wf(),
            after.wf(),
            !before.ids().contains(id),
            after.ids() == before.ids().push(id),
            after.contents() == before.contents().push(content),
        ensures
            after.ids().contains(id),
            after.contents()[after.ids().index_of(id)] == content,
            forall|other: Seq<char>|
                before.ids().contains(other) ==> #[trigger] after.ids().contains(other)
                    && after.contents()[after.ids().index_of(other)]
                    == before.contents()[before.ids().index_of(other)],
    {
        let n = before.ids().len() as int;
        assert(after.ids()[n] == id);
        let p = after.ids().index_of(id);
        assert(after.ids()[p] == id);
        assert(p == n);
        assert forall|other: Seq<char>| before.ids().contains(other) implies #[trigger] after.ids().contains(
            other,
        ) && after.contents()[after.ids().index_of(other)] == before.contents()[before.ids().index_of(
            other,
        )] by {
            let q = before.ids().index_of(other);
            assert(before.ids()[q] == other);
            assert(after.ids()[q] == other);
            let q2 = after.ids().index_of(other);
            assert(after.ids()[q2] == other);
            assert(q2 == q);
        }
    }
}

} // verus!
