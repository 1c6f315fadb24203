//! The extension protocol: loading the runtime and the extension scripts,
//! choosing the extension and the handler for an operation, and what the
//! handler's answer means.

use mlua::Table;
use vstd::prelude::*;

pub use crate::lua_state::BridgeError;
use crate::lua_state::{
    registered_by, registered_in, CallAnswer, FieldValue, FieldView, LuaEvent,
    LuaState, LuaView,
};
use crate::registry::{longest_extension, ExtensionView};
use crate::storage::Store;
use crate::text::{chars_of, text_is};

verus! {

/// The Lua code that every state runs first. `register_extension` hands
/// the Lua types of an extension's fields to the registry, which decides;
/// `call_extension` runs a handler of a registered extension; `db_get` and
/// `db_find_key_by_value` query the store.
pub const RUNTIME: &'static str = r#"
local registered_extensions = {}

function register_extension(extension)
    local prefix, on_add, on_get = nil, nil, nil
    if type(extension) == "table" then
        prefix, on_add, on_get = extension.prefix, extension.on_add, extension.on_get
    end

    local refusal = __register_extension(type(extension), type(prefix),
        type(prefix) == "string" and prefix or nil, type(on_add), type(on_get))
    if refusal ~= nil then
        error(refusal)
    end

    registered_extensions[prefix] = extension
end

function call_extension(prefix, handler, key, value)
    return registered_extensions[prefix][handler](key, value)
end

function db_get(key)
    return __store_query("get", key)
end

function db_find_key_by_value(value, except_key)
    return __store_query("find", value, except_key)
end
"#;

/// The name under which the runtime runs.
pub const RUNTIME_NAME: &'static str = "runtime de extensões";

/// The error for an answer that is not a table with a boolean `ok`.
pub const OK_FIELD_MESSAGE: &'static str =
    "a extensão deve retornar uma tabela com o campo booleano 'ok'";

/// The error for a success without a string `value`.
pub const VALUE_FIELD_MESSAGE: &'static str =
    "um resultado de sucesso deve conter o campo string 'value'";

/// The error for a refusal without a non-empty string `error`.
pub const ERROR_FIELD_MESSAGE: &'static str =
    "um resultado de falha deve conter o campo string não vazio 'error'";

/// The error for an operation other than `ADD` and `GET`.
pub const UNKNOWN_OPERATION_MESSAGE: &'static str = "operação desconhecida enviada à VM";

/// What an extension answered: the value to store or show, or why it refused.
#[derive(Debug, Clone, PartialEq, Eq)]
pub enum ExtensionResult {
    Success(String),
    Failure(String),
}

/// The mathematical value of an `ExtensionResult`.
pub enum ExtensionResultView {
    Success(Seq<char>),
    Failure(Seq<char>),
}

impl View for ExtensionResult {
    type V = ExtensionResultView;

    open spec fn view(&self) -> ExtensionResultView {
        match self {
            ExtensionResult::Success(text) => ExtensionResultView::Success(text@),
            ExtensionResult::Failure(text) => ExtensionResultView::Failure(text@),
        }
    }
}

/// The mathematical value of what a dispatch gave.
pub open spec fn answer_view(answer: Result<ExtensionResult, BridgeError>) -> Result<
    ExtensionResultView,
    Seq<char>,
> {
    match answer {
        Ok(a) => Ok(a@),
        Err(e) => Err(e@),
    }
}

/// The text of the error for a script named `name` that failed with `reason`.
pub open spec fn script_failure_text(name: Seq<char>, reason: Seq<char>) -> Seq<char> {
    "falha ao carregar "@ + name + ": "@ + reason
}

/// The text of the error for an answer field that could not be read.
pub open spec fn invalid_answer_text(reason: Seq<char>) -> Seq<char> {
    "retorno inválido da extensão: "@ + reason
}

/// Running the runtime, with `failure` the message of its error if any.
pub open spec fn runtime_event(failure: Option<Seq<char>>) -> LuaEvent {
    LuaEvent::Setup { name: RUNTIME_NAME@, source: RUNTIME@, failure }
}

/// The source of a script that was read.
pub open spec fn source_of(source: Result<String, String>) -> Seq<char> {
    match source {
        Ok(text) => text@,
        Err(_) => Seq::empty(),
    }
}

/// `event` ran `script` with the store queries reading `table`, and
/// `failure` is the message of its error, if any.
pub open spec fn ran_as(
    event: LuaEvent,
    script: (String, Result<String, String>),
    table: Map<Seq<char>, Seq<char>>,
    failure: Option<Seq<char>>,
) -> bool {
    match event {
        LuaEvent::Chunk { name, source, table: t, failure: f, .. } => {
            &&& name == script.0@
            &&& source == source_of(script.1)
            &&& t == table
            &&& f == failure
        },
        _ => false,
    }
}

/// The message of the error of a script run, if any.
pub open spec fn failure_of(event: LuaEvent) -> Option<Seq<char>> {
    match event {
        LuaEvent::Chunk { failure, .. } => failure,
        _ => None,
    }
}

/// `trace` ran each of `scripts` in order, each without error.
pub open spec fn ran_all(
    scripts: Seq<(String, Result<String, String>)>,
    table: Map<Seq<char>, Seq<char>>,
    trace: Seq<LuaEvent>,
) -> bool {
    &&& trace.len() == scripts.len()
    &&& forall|i: int|
        0 <= i < scripts.len() ==> ran_as(#[trigger] trace[i], scripts[i], table, None)
}

/// `log` is what loading `scripts` hands to Lua when nothing fails: the
/// runtime, then each script in order.
pub open spec fn scripts_ran(
    scripts: Seq<(String, Result<String, String>)>,
    table: Map<Seq<char>, Seq<char>>,
    log: Seq<LuaEvent>,
) -> bool {
    &&& log.len() >= 1
    &&& log[0] == runtime_event(None)
    &&& ran_all(scripts, table, log.skip(1))
}

/// Whether every script of the list was read.
pub open spec fn all_read(scripts: Seq<(String, Result<String, String>)>) -> bool {
    forall|i: int| 0 <= i < scripts.len() ==> (#[trigger] scripts[i]).1 is Ok
}

/// Running `scripts` in order stopped at script `i`: every script before
/// it was read and ran, and either script `i` could not be read (the
/// message is why, and it was not handed to Lua) or it failed in Lua (the
/// message names it and gives Lua's message).
pub open spec fn scripts_failed_at(
    scripts: Seq<(String, Result<String, String>)>,
    table: Map<Seq<char>, Seq<char>>,
    i: int,
    trace: Seq<LuaEvent>,
    message: Seq<char>,
) -> bool {
    &&& 0 <= i < scripts.len()
    &&& trace.len() >= i
    &&& all_read(scripts.take(i))
    &&& ran_all(scripts.take(i), table, trace.take(i))
    &&& match scripts[i].1 {
        Err(m) => trace.len() == i && message == m@,
        Ok(_) => {
            &&& trace.len() == i + 1
            &&& failure_of(trace[i]) is Some
            &&& ran_as(trace[i], scripts[i], table, failure_of(trace[i]))
            &&& message == script_failure_text(scripts[i].0@, failure_of(trace[i])->Some_0)
        },
    }
}

/// Running `scripts` in order stopped at one of them.
pub open spec fn scripts_failed(
    scripts: Seq<(String, Result<String, String>)>,
    table: Map<Seq<char>, Seq<char>>,
    trace: Seq<LuaEvent>,
    message: Seq<char>,
) -> bool {
    exists|i: int| scripts_failed_at(scripts, table, i, trace, message)
}

/// How loading `scripts` fails, given what was handed to Lua: the runtime
/// itself failed, with Lua's message, or it ran and the scripts stopped at
/// one of them.
pub open spec fn load_failed(
    scripts: Seq<(String, Result<String, String>)>,
    table: Map<Seq<char>, Seq<char>>,
    handed: Seq<LuaEvent>,
    message: Seq<char>,
) -> bool {
    ||| handed == seq![runtime_event(Some(message))]
    ||| {
        &&& handed.len() >= 1
        &&& handed[0] == runtime_event(None)
        &&& scripts_failed(scripts, table, handed.skip(1), message)
    }
}

/// `after` with more events after those of `before`.
pub open spec fn extends(before: Seq<LuaEvent>, after: Seq<LuaEvent>) -> bool {
    after.len() >= before.len() && after.take(before.len() as int) == before
}

/// Whether `extension` has a handler for `operation` (`ADD` or `GET`).
pub open spec fn has_handler(operation: Seq<char>, extension: ExtensionView) -> bool {
    if operation == "ADD"@ {
        extension.on_add
    } else {
        extension.on_get
    }
}

/// The field of an extension that holds its handler for `operation`.
pub open spec fn handler_name(operation: Seq<char>) -> Seq<char> {
    if operation == "ADD"@ {
        "on_add"@
    } else {
        "on_get"@
    }
}

/// The field of an answer that holds its text: `value` for a success,
/// `error` for a refusal.
pub open spec fn answer_field(succeeded: bool) -> Seq<char> {
    if succeeded {
        "value"@
    } else {
        "error"@
    }
}

/// What an answer means, given its `ok` flag and what was read of its
/// text field: a string `value` is a success, a non-empty string `error`
/// a refusal; anything else is outside the protocol.
pub open spec fn text_outcome(succeeded: bool, read: Result<FieldView, Seq<char>>) -> Result<
    ExtensionResultView,
    Seq<char>,
> {
    match read {
        Err(m) => Err(invalid_answer_text(m)),
        Ok(FieldView::Text(Err(m))) => Err(invalid_answer_text(m)),
        Ok(FieldView::Text(Ok(text))) => if succeeded {
            Ok(ExtensionResultView::Success(text))
        } else if text.len() > 0 {
            Ok(ExtensionResultView::Failure(text))
        } else {
            Err(ERROR_FIELD_MESSAGE@)
        },
        Ok(_) => if succeeded {
            Err(VALUE_FIELD_MESSAGE@)
        } else {
            Err(ERROR_FIELD_MESSAGE@)
        },
    }
}

/// `trace` read the answer table and `outcome` is what it means: the
/// field `ok` is read first; a boolean selects the text field to read,
/// anything else is outside the protocol.
pub open spec fn answer_trace(trace: Seq<LuaEvent>, outcome: Result<ExtensionResultView, Seq<char>>) -> bool {
    &&& trace.len() >= 1
    &&& match trace[0] {
        LuaEvent::Field { field, read } => {
            &&& field == "ok"@
            &&& match read {
                Ok(FieldView::Boolean(flag)) => {
                    &&& trace.len() == 2
                    &&& match trace[1] {
                        LuaEvent::Field { field: f, read: text } => {
                            &&& f == answer_field(flag)
                            &&& outcome == text_outcome(flag, text)
                        },
                        _ => false,
                    }
                },
                Ok(_) => trace.len() == 1 && outcome == Err::<ExtensionResultView, Seq<char>>(
                    OK_FIELD_MESSAGE@,
                ),
                Err(m) => trace.len() == 1 && outcome == Err::<ExtensionResultView, Seq<char>>(
                    invalid_answer_text(m),
                ),
            }
        },
        _ => false,
    }
}

/// `trace` called `handler` of the extension with `prefix` on `(key,
/// value)`, with the store queries reading `table`, and `outcome` is what
/// came of it: a failed call is an error with Lua's message, a value that
/// is not a table is outside the protocol, and a table is read as
/// `answer_trace` says.
pub open spec fn call_trace(
    prefix: Seq<char>,
    handler: Seq<char>,
    key: Seq<char>,
    value: Seq<char>,
    table: Map<Seq<char>, Seq<char>>,
    trace: Seq<LuaEvent>,
    outcome: Result<ExtensionResultView, Seq<char>>,
) -> bool {
    &&& trace.len() >= 1
    &&& match trace[0] {
        LuaEvent::Call { prefix: p, handler: h, key: k, value: v, table: t, answer, .. } => {
            &&& p == prefix
            &&& h == handler
            &&& k == key
            &&& v == value
            &&& t == table
            &&& match answer {
                CallAnswer::Failed(m) => trace.len() == 1 && outcome == Err::<
                    ExtensionResultView,
                    Seq<char>,
                >(m),
                CallAnswer::NotTable => trace.len() == 1 && outcome == Err::<
                    ExtensionResultView,
                    Seq<char>,
                >(OK_FIELD_MESSAGE@),
                CallAnswer::Table => answer_trace(trace.skip(1), outcome),
            }
        },
        _ => false,
    }
}

/// What one dispatch of `(operation, key, value)`, with the store queries
/// reading `table`, does to the Lua state (from `before` to `after`) and
/// gives. The extension with the longest registered prefix of `key` is
/// chosen; with none, or when it has no handler for the operation, the
/// value is kept and nothing is handed to Lua; an operation other than
/// `ADD` and `GET` is an error; otherwise its handler is called as
/// `call_trace` says, and the extensions that the call registered are
/// added.
pub open spec fn dispatch_effect(
    operation: Seq<char>,
    key: Seq<char>,
    value: Seq<char>,
    table: Map<Seq<char>, Seq<char>>,
    before: LuaView,
    after: LuaView,
    outcome: Result<ExtensionResultView, Seq<char>>,
) -> bool {
    match longest_extension(before.extensions, key) {
        None => after == before && outcome == Ok::<ExtensionResultView, Seq<char>>(
            ExtensionResultView::Success(value),
        ),
        Some(extension) => if !(operation == "ADD"@ || operation == "GET"@) {
            after == before && outcome == Err::<ExtensionResultView, Seq<char>>(
                UNKNOWN_OPERATION_MESSAGE@,
            )
        } else if !has_handler(operation, extension) {
            after == before && outcome == Ok::<ExtensionResultView, Seq<char>>(
                ExtensionResultView::Success(value),
            )
        } else {
            &&& extends(before.log, after.log)
            &&& call_trace(
                extension.prefix,
                handler_name(operation),
                key,
                value,
                table,
                after.log.skip(before.log.len() as int),
                outcome,
            )
            &&& after.extensions == before.extensions + registered_in(
                after.log[before.log.len() as int],
            )
        },
    }
}

proof fn lemma_registered_by_push(log: Seq<LuaEvent>, event: LuaEvent)
    ensures
        registered_by(log.push(event)) == registered_by(log) + registered_in(event),
{
    assert(log.push(event).drop_last() =~= log);
}

/// The error for a script named `name` that failed with `reason`.
fn script_failure(name: &str, reason: &str) -> (m: String)
    ensures
        m@ == script_failure_text(name@, reason@),
{
    let mut message = String::from_str("falha ao carregar ");
    message.append(name);
    message.append(": ");
    message.append(reason);
    message
}

/// The error for an answer field that could not be read.
fn invalid_answer(reason: &str) -> (e: BridgeError)
    ensures
        e@ == invalid_answer_text(reason@),
{
    let mut message = String::from_str("retorno inválido da extensão: ");
    message.append(reason);
    BridgeError::new(message)
}

/// The field of an answer that holds its text, given its `ok` flag.
fn answer_field_name(succeeded: bool) -> (field: &'static str)
    ensures
        field@ == answer_field(succeeded),
{
    if succeeded {
        "value"
    } else {
        "error"
    }
}

/// Runs the scripts in order on `state`, and stops at the first that
/// could not be read or that failed, with the message of the error.
fn run_scripts(state: &mut LuaState, scripts: &Vec<(String, Result<String, String>)>, store: &Store) -> (r:
    Result<(), String>)
    requires
        old(state)@.extensions == registered_by(old(state)@.log),
    ensures
        final(state)@.extensions == registered_by(final(state)@.log),
        extends(old(state)@.log, final(state)@.log),
        match r {
            Ok(()) => all_read(scripts@) && ran_all(
                scripts@,
                store@,
                final(state)@.log.skip(old(state)@.log.len() as int),
            ),
            Err(m) => scripts_failed(
                scripts@,
                store@,
                final(state)@.log.skip(old(state)@.log.len() as int),
                m@,
            ),
        },
{
    let ghost start = state@.log;
    assert(start.take(start.len() as int) =~= start);
    assert(start.skip(start.len() as int) =~= Seq::<LuaEvent>::empty());
    assert(scripts@.take(0) =~= Seq::<(String, Result<String, String>)>::empty());
    let mut i: usize = 0;
    while i < scripts.len()
        invariant
            0 <= i <= scripts@.len(),
            start == old(state)@.log,
            all_read(scripts@.take(i as int)),
            extends(start, state@.log),
            state@.extensions == registered_by(state@.log),
            ran_all(scripts@.take(i as int), store@, state@.log.skip(start.len() as int)),
        decreases scripts@.len() - i,
    {
        let (name, source) = &scripts[i];
        let ghost before = state@;
        match source {
            Err(reason) => {
                assert(scripts@.take(i as int).len() == i);
                assert(state@.log.skip(start.len() as int).take(i as int) =~= state@.log.skip(
                    start.len() as int,
                ));
                assert(scripts_failed_at(
                    scripts@,
                    store@,
                    i as int,
                    state@.log.skip(start.len() as int),
                    reason@,
                ));
                assert(scripts_failed(scripts@, store@, state@.log.skip(start.len() as int), reason@));
                return Err(reason.clone());
            },
            Ok(text) => {
                let outcome = state.exec_script(store, text.as_str(), name.as_str());
                proof {
                    let e = state@.log.last();
                    assert(state@.log =~= before.log.push(e));
                    lemma_registered_by_push(before.log, e);
                    assert(state@.extensions =~= before.extensions + registered_in(e));
                    assert(state@.log.take(start.len() as int) =~= start);
                    assert(state@.log.skip(start.len() as int) =~= before.log.skip(
                        start.len() as int,
                    ).push(e));
                    assert(state@.log.skip(start.len() as int).take(i as int) =~= before.log.skip(
                        start.len() as int,
                    ));
                }
                match outcome {
                    Ok(()) => {},
                    Err(reason) => {
                        let message = script_failure(name.as_str(), reason.as_str());
                        assert(scripts_failed_at(
                            scripts@,
                            store@,
                            i as int,
                            state@.log.skip(start.len() as int),
                            message@,
                        ));
                        assert(scripts_failed(
                            scripts@,
                            store@,
                            state@.log.skip(start.len() as int),
                            message@,
                        ));
                        return Err(message);
                    },
                }
            },
        }
        assert(scripts@.take(i + 1) =~= scripts@.take(i as int).push(scripts@[i as int]));
        i = i + 1;
    }
    assert(scripts@.take(i as int) =~= scripts@);
    Ok(())
}

/// Reads the answer of a handler, a table: its `ok` field, then `value`
/// or `error`.
fn read_answer(state: &mut LuaState, answer: &Table) -> (r: Result<ExtensionResult, BridgeError>)
    ensures
        final(state)@.extensions == old(state)@.extensions,
        extends(old(state)@.log, final(state)@.log),
        answer_trace(final(state)@.log.skip(old(state)@.log.len() as int), answer_view(r)),
{
    let ghost start = state@.log;
    let succeeded = match state.read_field(answer, "ok") {
        Ok(FieldValue::Boolean(flag)) => flag,
        Ok(_) => {
            assert(state@.log.skip(start.len() as int) =~= seq![state@.log.last()]);
            assert(state@.log.take(start.len() as int) =~= start);
            return Err(BridgeError::new(String::from_str(OK_FIELD_MESSAGE)));
        },
        Err(reason) => {
            assert(state@.log.skip(start.len() as int) =~= seq![state@.log.last()]);
            assert(state@.log.take(start.len() as int) =~= start);
            return Err(invalid_answer(reason.as_str()));
        },
    };
    let field = answer_field_name(succeeded);
    let read = state.read_field(answer, field);
    assert(state@.log.skip(start.len() as int) =~= seq![
        state@.log[start.len() as int],
        state@.log.last(),
    ]);
    assert(state@.log.take(start.len() as int) =~= start);
    match read {
        Ok(FieldValue::Text(Ok(text))) => if succeeded {
            Ok(ExtensionResult::Success(text))
        } else if chars_of(text.as_str()).len() > 0 {
            Ok(ExtensionResult::Failure(text))
        } else {
            Err(BridgeError::new(String::from_str(ERROR_FIELD_MESSAGE)))
        },
        Ok(FieldValue::Text(Err(reason))) => Err(invalid_answer(reason.as_str())),
        Err(reason) => Err(invalid_answer(reason.as_str())),
        Ok(_) => if succeeded {
            Err(BridgeError::new(String::from_str(VALUE_FIELD_MESSAGE)))
        } else {
            Err(BridgeError::new(String::from_str(ERROR_FIELD_MESSAGE)))
        },
    }
}

/// A Lua state with the extension runtime and the extension scripts loaded.
pub struct LuaBridge {
    state: LuaState,
}

impl View for LuaBridge {
    type V = LuaView;

    closed spec fn view(&self) -> LuaView {
        self.state@
    }
}

impl LuaBridge {
    /// Opens a Lua state, runs the runtime, then the scripts in order. Each
    /// script is its name and its source, or the reason it could not be
    /// read. The extensions are those that the scripts registered.
    pub fn load(scripts: &Vec<(String, Result<String, String>)>, store: &Store) -> (r: Result<
        Self,
        BridgeError,
    >)
        ensures
            match r {
                Ok(bridge) => {
                    &&& all_read(scripts@)
                    &&& scripts_ran(scripts@, store@, bridge@.log)
                    &&& bridge@.extensions == registered_by(bridge@.log)
                },
                Err(e) => load_failed(scripts@, store@, e.handed(), e@),
            },
    {
        let mut state = LuaState::open();
        match state.exec_setup(RUNTIME, RUNTIME_NAME) {
            Ok(()) => {},
            Err(message) => {
                assert(state@.log =~= seq![runtime_event(Some(message@))]);
                return Err(BridgeError::after_load(message, state));
            },
        }
        proof {
            assert(state@.log =~= Seq::<LuaEvent>::empty().push(runtime_event(None)));
            lemma_registered_by_push(Seq::<LuaEvent>::empty(), runtime_event(None));
            assert(state@.extensions =~= registered_by(state@.log));
        }
        let ghost start = state@.log;
        match run_scripts(&mut state, scripts, store) {
            Ok(()) => {
                assert(state@.log.take(1) =~= start);
                assert(state@.log[0] == start[0]);
                Ok(LuaBridge { state })
            },
            Err(message) => {
                assert(state@.log.take(1) =~= start);
                assert(state@.log[0] == start[0]);
                Err(BridgeError::after_load(message, state))
            },
        }
    }

    /// Hands `(operation, key, value)` to the extension with the longest
    /// registered prefix of `key`, with `store` readable from Lua during the
    /// call, and reads its answer; a key that no prefix begins, or whose
    /// extension has no handler for the operation, keeps its value.
    pub fn dispatch(&mut self, store: &Store, operation: &str, key: &str, value: &str) -> (r: Result<
        ExtensionResult,
        BridgeError,
    >)
        ensures
            dispatch_effect(
                operation@,
                key@,
                value@,
                store@,
                old(self)@,
                final(self)@,
                answer_view(r),
            ),
    {
        let extension = match self.state.longest_match(key) {
            Some(e) => e,
            None => {
                return Ok(ExtensionResult::Success(String::from_str(value)));
            },
        };
        let handler: &str = if text_is(operation, "ADD") {
            if !extension.on_add {
                return Ok(ExtensionResult::Success(String::from_str(value)));
            }
            "on_add"
        } else if text_is(operation, "GET") {
            if !extension.on_get {
                return Ok(ExtensionResult::Success(String::from_str(value)));
            }
            "on_get"
        } else {
            return Err(BridgeError::new(String::from_str(UNKNOWN_OPERATION_MESSAGE)));
        };
        let ghost start = self.state@;
        let called = self.state.call_handler(
            store,
            extension.prefix.as_str(),
            handler,
            key,
            value,
        );
        let ghost middle = self.state@;
        proof {
            assert(middle.log.take(start.log.len() as int) =~= start.log);
            assert(middle.log.skip(start.log.len() as int) =~= seq![middle.log.last()]);
            assert(middle.extensions =~= start.extensions + registered_in(middle.log.last()));
        }
        let answer = match called {
            Ok(Some(answer)) => answer,
            Ok(None) => {
                return Err(BridgeError::new(String::from_str(OK_FIELD_MESSAGE)));
            },
            Err(message) => {
                return Err(BridgeError::new(message));
            },
        };
        let r = read_answer(&mut self.state, &answer);
        proof {
            let after = self.state@.log;
            assert(after.take(middle.log.len() as int) =~= middle.log);
            assert(after.take(start.log.len() as int) =~= start.log);
            assert(after[start.log.len() as int] == middle.log.last());
            assert(after.skip(start.log.len() as int).skip(1) =~= after.skip(
                middle.log.len() as int,
            ));
        }
        r
    }
}

/// Law: loading no script registers no extension.
pub proof fn law_no_scripts_register_nothing(table: Map<Seq<char>, Seq<char>>, log: Seq<LuaEvent>)
    requires
        scripts_ran(Seq::empty(), table, log),
    ensures
        registered_by(log) == Seq::<ExtensionView>::empty(),
{
    assert(log =~= Seq::<LuaEvent>::empty().push(log[0]));
    lemma_registered_by_push(Seq::<LuaEvent>::empty(), log[0]);
    assert(registered_by(log) =~= Seq::<ExtensionView>::empty());
}

/// Law: with no extension registered, a dispatch keeps the value and hands
/// nothing to Lua.
pub proof fn law_no_extensions_keep_values(
    operation: Seq<char>,
    key: Seq<char>,
    value: Seq<char>,
    table: Map<Seq<char>, Seq<char>>,
    before: LuaView,
    after: LuaView,
    outcome: Result<ExtensionResultView, Seq<char>>,
)
    requires
        before.extensions.len() == 0,
        dispatch_effect(operation, key, value, table, before, after, outcome),
    ensures
        after == before,
        outcome == Ok::<ExtensionResultView, Seq<char>>(ExtensionResultView::Success(value)),
{
    assert(before.extensions =~= Seq::<ExtensionView>::empty());
    crate::registry::law_no_extension_no_match(key);
}

/// Law: after loading no script, every dispatch keeps its value and hands
/// nothing to Lua.
pub proof fn law_no_scripts_keep_values(
    loaded_with: Map<Seq<char>, Seq<char>>,
    operation: Seq<char>,
    key: Seq<char>,
    value: Seq<char>,
    table: Map<Seq<char>, Seq<char>>,
    before: LuaView,
    after: LuaView,
    outcome: Result<ExtensionResultView, Seq<char>>,
)
    requires
        scripts_ran(Seq::empty(), loaded_with, before.log),
        before.extensions == registered_by(before.log),
        dispatch_effect(operation, key, value, table, before, after, outcome),
    ensures
        after == before,
        outcome == Ok::<ExtensionResultView, Seq<char>>(ExtensionResultView::Success(value)),
{
    law_no_scripts_register_nothing(loaded_with, before.log);
    law_no_extensions_keep_values(operation, key, value, table, before, after, outcome);
}

} // verus!
