//! The Lua state of the extensions, and the record of everything it was
//! handed. Only the calls into Lua declared here extend that record, each
//! by the one event it performed, so code outside this module can read
//! the record but not write it.

use mlua::{Function, Lua, Table, Value};
use vstd::prelude::*;

use crate::registry::{longest_extension, Extension, ExtensionView, Registry};
use crate::storage::Store;

verus! {

#[verifier::external_type_specification]
#[verifier::external_body]
pub struct ExLua(Lua);

#[verifier::external_type_specification]
#[verifier::external_body]
pub struct ExTable(Table);

/// A field of a Lua table, as far as the extension protocol reads it.
pub enum FieldValue {
    Nil,
    Boolean(bool),
    /// A string: its text, or why it is not valid UTF-8.
    Text(Result<String, String>),
    /// Any other Lua value.
    Other,
}

/// The mathematical value of a `FieldValue`.
pub enum FieldView {
    Nil,
    Boolean(bool),
    Text(Result<Seq<char>, Seq<char>>),
    Other,
}

impl View for FieldValue {
    type V = FieldView;

    open spec fn view(&self) -> FieldView {
        match self {
            FieldValue::Nil => FieldView::Nil,
            FieldValue::Boolean(b) => FieldView::Boolean(*b),
            FieldValue::Text(Ok(t)) => FieldView::Text(Ok(t@)),
            FieldValue::Text(Err(m)) => FieldView::Text(Err(m@)),
            FieldValue::Other => FieldView::Other,
        }
    }
}

/// What a call of an extension handler gave back.
pub enum CallAnswer {
    /// The call raised an error, with this message.
    Failed(Seq<char>),
    /// It returned something other than a table.
    NotTable,
    /// It returned a table.
    Table,
}

/// One thing the Lua state was handed, with what came of it.
pub enum LuaEvent {
    /// A chunk ran with no access to the store or the registry; `failure`
    /// is the message of its error, if it raised one.
    Setup { name: Seq<char>, source: Seq<char>, failure: Option<Seq<char>> },
    /// An extension script ran with the store queries reading `table`;
    /// `registered` are the extensions it registered.
    Chunk {
        name: Seq<char>,
        source: Seq<char>,
        table: Map<Seq<char>, Seq<char>>,
        failure: Option<Seq<char>>,
        registered: Seq<ExtensionView>,
    },
    /// The Lua function `call_extension(prefix, handler, key, value)` ran
    /// with the store queries reading `table`; `registered` are the
    /// extensions registered meanwhile.
    Call {
        prefix: Seq<char>,
        handler: Seq<char>,
        key: Seq<char>,
        value: Seq<char>,
        table: Map<Seq<char>, Seq<char>>,
        answer: CallAnswer,
        registered: Seq<ExtensionView>,
    },
    /// The field `field` of a returned table was read: its value, or the
    /// message of the error that reading it raised.
    Field { field: Seq<char>, read: Result<FieldView, Seq<char>> },
}

/// The extensions that an event registered.
pub open spec fn registered_in(event: LuaEvent) -> Seq<ExtensionView> {
    match event {
        LuaEvent::Chunk { registered, .. } => registered,
        LuaEvent::Call { registered, .. } => registered,
        _ => Seq::empty(),
    }
}

/// The extensions that the events of `log` registered, in order.
pub open spec fn registered_by(log: Seq<LuaEvent>) -> Seq<ExtensionView>
    decreases log.len(),
{
    if log.len() == 0 {
        Seq::empty()
    } else {
        registered_by(log.drop_last()) + registered_in(log.last())
    }
}

/// The message of an error, if there was one.
pub open spec fn failure_view(r: Result<(), String>) -> Option<Seq<char>> {
    match r {
        Ok(()) => None,
        Err(m) => Some(m@),
    }
}

/// What a call of an extension handler gave back, as a `CallAnswer`.
pub open spec fn call_answer(r: Result<Option<Table>, String>) -> CallAnswer {
    match r {
        Err(m) => CallAnswer::Failed(m@),
        Ok(None) => CallAnswer::NotTable,
        Ok(Some(_)) => CallAnswer::Table,
    }
}

/// What was read of a field.
pub open spec fn field_read(r: Result<FieldValue, String>) -> Result<FieldView, Seq<char>> {
    match r {
        Ok(v) => Ok(v@),
        Err(m) => Err(m@),
    }
}

/// The mathematical value of a `LuaState`: the registered extensions, and
/// everything the state was handed, in order.
pub struct LuaView {
    pub extensions: Seq<ExtensionView>,
    pub log: Seq<LuaEvent>,
}

/// A Lua state with the registered extensions.
pub struct LuaState {
    lua: Lua,
    registry: Registry,
    log: Ghost<Seq<LuaEvent>>,
}

impl View for LuaState {
    type V = LuaView;

    closed spec fn view(&self) -> LuaView {
        LuaView { extensions: self.registry@, log: self.log@ }
    }
}

/// Calls `mlua::Lua::new`, which opens a Lua state with the safe subset of
/// the standard libraries. Nothing is stated of the state it returns.
#[verifier::external_body]
fn new_lua() -> (lua: Lua) {
    Lua::new()
}

impl LuaState {
    /// A fresh Lua state, with no extension and nothing handed to it.
    pub fn open() -> (s: Self)
        ensures
            s@.extensions == Seq::<ExtensionView>::empty(),
            s@.log == Seq::<LuaEvent>::empty(),
    {
        LuaState { lua: new_lua(), registry: Registry::new(), log: Ghost(Seq::empty()) }
    }

    /// The extension with the longest prefix that begins `key`, if any.
    pub fn longest_match(&self, key: &str) -> (r: Option<Extension>)
        ensures
            match r {
                Some(e) => longest_extension(self@.extensions, key@) == Some(e@),
                None => longest_extension(self@.extensions, key@) == None::<ExtensionView>,
            },
    {
        self.registry.longest_match(key)
    }

    /// Runs `source` as a chunk named `name` (`Lua::load`, `Chunk::set_name`,
    /// `Chunk::exec`), with neither the store nor the registry reachable
    /// from it. States that the chunk was handed to Lua, with the message
    /// of the error (the `Display` of `mlua::Error`) when it failed; whether
    /// it fails is up to the Lua code.
    #[verifier::external_body]
    pub(crate) fn exec_setup(&mut self, source: &str, name: &str) -> (r: Result<(), String>)
        ensures
            final(self)@.extensions == old(self)@.extensions,
            final(self)@.log == old(self)@.log.push(
                LuaEvent::Setup { name: name@, source: source@, failure: failure_view(r) },
            ),
    {
        self.lua.load(source).set_name(name).exec().map_err(|e| e.to_string())
    }

    /// Runs `source` as a chunk named `name` inside `Lua::scope`, where the
    /// global `__store_query` calls `Store::answer_query` on `store` and
    /// `__register_extension` calls `Registry::register_extension` on this
    /// state's registry (`Scope::create_function`, `create_function_mut`,
    /// `Table::set` on `Lua::globals`). States that the chunk was handed to
    /// Lua, its error message if it failed, and that the registry only
    /// grew, by the extensions recorded; what the chunk registers, and
    /// whether it fails, is up to the Lua code.
    #[verifier::external_body]
    pub(crate) fn exec_script(&mut self, store: &Store, source: &str, name: &str) -> (r: Result<
        (),
        String,
    >)
        ensures
            final(self)@.extensions.len() >= old(self)@.extensions.len(),
            final(self)@.extensions.take(old(self)@.extensions.len() as int)
                == old(self)@.extensions,
            final(self)@.log == old(self)@.log.push(
                LuaEvent::Chunk {
                    name: name@,
                    source: source@,
                    table: store@,
                    failure: failure_view(r),
                    registered: final(self)@.extensions.skip(old(self)@.extensions.len() as int),
                },
            ),
    {
        let LuaState { lua, registry, .. } = self;
        lua.scope(|scope| {
            let query = scope.create_function(|_, q| Ok(store.answer_query(q)))?;
            let register = scope.create_function_mut(|_, a| Ok(registry.register_extension(a)))?;
            lua.globals().set("__store_query", query)?;
            lua.globals().set("__register_extension", register)?;
            lua.load(source).set_name(name).exec()
        }).map_err(|e| e.to_string())
    }

    /// Calls the Lua global `call_extension` with `(prefix, handler, key,
    /// value)` (`Table::get` on `Lua::globals`, `Function::call`) inside
    /// `Lua::scope`, with `__store_query` and `__register_extension`
    /// installed as in `exec_script`. States what was handed to Lua, what
    /// came back (an error's message, a table, or another value) and that
    /// the registry only grew, by the extensions recorded; the answer
    /// itself is whatever the extension's code produced.
    #[verifier::external_body]
    pub(crate) fn call_handler(
        &mut self,
        store: &Store,
        prefix: &str,
        handler: &str,
        key: &str,
        value: &str,
    ) -> (r: Result<Option<Table>, String>)
        ensures
            final(self)@.extensions.len() >= old(self)@.extensions.len(),
            final(self)@.extensions.take(old(self)@.extensions.len() as int)
                == old(self)@.extensions,
            final(self)@.log == old(self)@.log.push(
                LuaEvent::Call {
                    prefix: prefix@,
                    handler: handler@,
                    key: key@,
                    value: value@,
                    table: store@,
                    answer: call_answer(r),
                    registered: final(self)@.extensions.skip(old(self)@.extensions.len() as int),
                },
            ),
    {
        let LuaState { lua, registry, .. } = self;
        lua.scope(|scope| {
            let query = scope.create_function(|_, q| Ok(store.answer_query(q)))?;
            let register = scope.create_function_mut(|_, a| Ok(registry.register_extension(a)))?;
            lua.globals().set("__store_query", query)?;
            lua.globals().set("__register_extension", register)?;
            let call: Function = lua.globals().get("call_extension")?;
            match call.call::<Value>((prefix, handler, key, value))? {
                Value::Table(table) => Ok(Some(table)),
                _ => Ok(None),
            }
        }).map_err(|e| e.to_string())
    }

    /// Reads the field `field` of `table` (`Table::get` of a `Value`, which
    /// may run a metamethod; a string is converted with `String::to_str`).
    /// States which field was read and what was read; the registry is not
    /// reachable from it.
    #[verifier::external_body]
    pub(crate) fn read_field(&mut self, table: &Table, field: &str) -> (r: Result<
        FieldValue,
        String,
    >)
        ensures
            final(self)@.extensions == old(self)@.extensions,
            final(self)@.log == old(self)@.log.push(
                LuaEvent::Field { field: field@, read: field_read(r) },
            ),
    {
        match table.get::<Value>(field).map_err(|e| e.to_string())? {
            Value::Nil => Ok(FieldValue::Nil),
            Value::Boolean(flag) => Ok(FieldValue::Boolean(flag)),
            Value::String(text) => Ok(
                FieldValue::Text(text.to_str().map(|t| t.to_string()).map_err(|e| e.to_string())),
            ),
            _ => Ok(FieldValue::Other),
        }
    }
}

/// A failure of the Lua side: a script that did not load, a runtime error,
/// or an answer outside the extension protocol.
pub struct BridgeError {
    message: String,
    handed: Ghost<Seq<LuaEvent>>,
}

impl View for BridgeError {
    type V = Seq<char>;

    closed spec fn view(&self) -> Seq<char> {
        self.message@
    }
}

impl BridgeError {
    /// For an error of loading, everything the Lua state had been handed
    /// when loading stopped; empty for other errors.
    pub closed spec fn handed(&self) -> Seq<LuaEvent> {
        self.handed@
    }

    /// An error with `message`.
    pub fn new(message: String) -> (e: Self)
        ensures
            e@ == message@,
            e.handed() == Seq::<LuaEvent>::empty(),
    {
        BridgeError { message, handed: Ghost(Seq::empty()) }
    }

    /// An error with `message` that ends the loading of `state`, and keeps
    /// what the state had been handed.
    pub fn after_load(message: String, state: LuaState) -> (e: Self)
        ensures
            e@ == message@,
            e.handed() == state@.log,
    {
        BridgeError { message, handed: Ghost(state@.log) }
    }

    /// The message of the error.
    pub fn message(&self) -> (m: String)
        ensures
            m@ == self@,
    {
        self.message.clone()
    }
}

} // verus!
