//! The engine: runs a command against the table, with the extensions
//! validating and transforming values on the way in and out.

use vstd::prelude::*;

use crate::command::{Command, CommandView};
use crate::lua_bridge::{
    all_read, answer_view, dispatch_effect, load_failed, scripts_ran, ExtensionResult,
    ExtensionResultView, LuaBridge,
};
use crate::lua_state::{registered_by, BridgeError, LuaEvent, LuaView};
use crate::registry::{law_unmatched_key_has_no_extension, no_match};
use crate::storage::{lookup, Store};
use crate::text::{chars_of, find_in, first_in, lemma_first_in_props, CharClass};

verus! {

/// What the engine answers to a command.
#[derive(Debug, Clone, PartialEq, Eq)]
pub enum EngineResponse {
    /// A line to show; the session goes on.
    Continue(String),
    /// The session ends.
    Exit,
}

/// The mathematical value of an `EngineResponse`.
pub enum EngineResponseView {
    Continue(Seq<char>),
    Exit,
}

impl View for EngineResponse {
    type V = EngineResponseView;

    open spec fn view(&self) -> EngineResponseView {
        match self {
            EngineResponse::Continue(text) => EngineResponseView::Continue(text@),
            EngineResponse::Exit => EngineResponseView::Exit,
        }
    }
}

/// `l` without one trailing carriage return.
pub open spec fn drop_carriage_return(l: Seq<char>) -> Seq<char> {
    if l.len() > 0 && l.last() == '\r' {
        l.drop_last()
    } else {
        l
    }
}

/// The first line of `t`: up to the first line feed, without a carriage
/// return just before it; all of `t` when it holds no line feed.
pub open spec fn first_line(t: Seq<char>) -> Seq<char> {
    let i = first_in(t, CharClass::LineFeed);
    if i == t.len() {
        t
    } else {
        drop_carriage_return(t.take(i as int))
    }
}

/// What follows the first line of `t` and its line feed.
pub open spec fn after_first_line(t: Seq<char>) -> Seq<char> {
    let i = first_in(t, CharClass::LineFeed);
    if i == t.len() {
        Seq::empty()
    } else {
        t.skip(i as int + 1)
    }
}

/// The lines of `s`, as `str::lines` gives them: split at `\n` or `\r\n`,
/// with no empty last line after a final line ending.
pub open spec fn lines(s: Seq<char>) -> Seq<Seq<char>>
    decreases s.len(),
{
    if s.len() == 0 {
        Seq::empty()
    } else {
        proof {
            lemma_first_in_props(s, CharClass::LineFeed);
        }
        seq![first_line(s)] + lines(after_first_line(s))
    }
}

/// `parts` joined with `separator` between consecutive parts.
pub open spec fn join(parts: Seq<Seq<char>>, separator: Seq<char>) -> Seq<char>
    decreases parts.len(),
{
    if parts.len() == 0 {
        Seq::empty()
    } else if parts.len() == 1 {
        parts[0]
    } else {
        parts[0] + separator + join(parts.drop_first(), separator)
    }
}

/// The error line for `reason`: `ERRO: ` and the lines of the reason joined by ` | `.
pub open spec fn error_text(reason: Seq<char>) -> Seq<char> {
    "ERRO: "@ + join(lines(reason), " | "@)
}

/// What is still to be written of the error line once everything before
/// `t` was written; `first` when nothing of the reason was written yet.
spec fn rest_text(t: Seq<char>, first: bool) -> Seq<char> {
    if lines(t).len() == 0 {
        Seq::empty()
    } else if first {
        join(lines(t), " | "@)
    } else {
        " | "@ + join(lines(t), " | "@)
    }
}

proof fn lemma_rest_step(t: Seq<char>, first: bool)
    requires
        t.len() > 0,
    ensures
        rest_text(t, first) == (if first {
            Seq::<char>::empty()
        } else {
            " | "@
        }) + first_line(t) + rest_text(after_first_line(t), false),
{
    let r = lines(after_first_line(t));
    let l = lines(t);
    assert(l.len() > 0);
    assert(l.drop_first() =~= r);
    if r.len() == 0 {
        assert(l.len() == 1);
    }
    if first {
        assert(rest_text(t, first) =~= Seq::<char>::empty() + first_line(t) + rest_text(
            after_first_line(t),
            false,
        ));
    } else {
        assert(rest_text(t, first) =~= " | "@ + first_line(t) + rest_text(
            after_first_line(t),
            false,
        ));
    }
}

proof fn lemma_lines_single(s: Seq<char>)
    ensures
        forall|k: int| 0 <= k < lines(s).len() ==> !(#[trigger] lines(s)[k]).contains('\n'),
    decreases s.len(),
{
    if s.len() > 0 {
        lemma_first_in_props(s, CharClass::LineFeed);
        lemma_lines_single(after_first_line(s));
        let p = first_line(s);
        let i = first_in(s, CharClass::LineFeed);
        assert forall|j: int| 0 <= j < p.len() implies p[j] != '\n' by {
            assert(p[j] == s[j]);
        }
        assert forall|k: int| 0 <= k < lines(s).len() implies !(#[trigger] lines(s)[k]).contains(
            '\n',
        ) by {
            if k > 0 {
                assert(lines(s)[k] == lines(after_first_line(s))[k - 1]);
            }
        }
    }
}

proof fn lemma_join_single(parts: Seq<Seq<char>>, separator: Seq<char>)
    requires
        !separator.contains('\n'),
        forall|k: int| 0 <= k < parts.len() ==> !(#[trigger] parts[k]).contains('\n'),
    ensures
        !join(parts, separator).contains('\n'),
    decreases parts.len(),
{
    if parts.len() > 1 {
        let rest = parts.drop_first();
        assert forall|k: int| 0 <= k < rest.len() implies !(#[trigger] rest[k]).contains('\n') by {
            assert(rest[k] == parts[k + 1]);
        }
        lemma_join_single(rest, separator);
        let j = join(parts, separator);
        assert(!parts[0].contains('\n'));
        assert(j == parts[0] + separator + join(rest, separator));
        if j.contains('\n') {
            let x = choose|x: int| 0 <= x < j.len() && j[x] == '\n';
            let a = parts[0].len() as int;
            let b = a + separator.len();
            if x < a {
                assert(parts[0][x] == '\n');
            } else if x < b {
                assert(separator[x - a] == '\n');
            } else {
                assert(join(rest, separator)[x - b] == '\n');
            }
        }
    } else if parts.len() == 1 {
        assert(!parts[0].contains('\n'));
    }
}

/// Law: an error line is a single line that starts with `ERRO: `, whatever
/// the reason holds.
pub proof fn law_error_line_is_one_line(reason: Seq<char>)
    ensures
        !error_text(reason).contains('\n'),
        error_text(reason).take(6) == "ERRO: "@,
{
    reveal_strlit("ERRO: ");
    reveal_strlit(" | ");
    lemma_lines_single(reason);
    lemma_join_single(lines(reason), " | "@);
    let j = join(lines(reason), " | "@);
    let e = error_text(reason);
    assert(e.take(6) =~= "ERRO: "@);
    if e.contains('\n') {
        let x = choose|x: int| 0 <= x < e.len() && e[x] == '\n';
        if x >= 6 {
            assert(j[x - 6] == '\n');
        }
    }
}

/// The reason written as a single error line: `ERRO: ` and the lines of
/// `reason` joined by ` | `.
#[verifier::rlimit(40)]
pub fn error_line(reason: &str) -> (r: String)
    ensures
        r@ == error_text(reason@),
{
    let v = chars_of(reason);
    let n = v.len();
    let mut out = String::from_str("ERRO: ");
    let mut pos: usize = 0;
    let mut first = true;
    assert(v@.skip(0) =~= reason@);
    while pos < n
        invariant
            v@ == reason@,
            n == v@.len(),
            pos <= n,
            error_text(reason@) == out@ + rest_text(v@.skip(pos as int), first),
        decreases n - pos,
    {
        let ghost t = v@.skip(pos as int);
        assert(v@.subrange(pos as int, n as int) =~= t);
        let i = find_in(&v, pos, n, CharClass::LineFeed);
        proof {
            lemma_rest_step(t, first);
            lemma_first_in_props(t, CharClass::LineFeed);
        }
        let piece_end = if i < n && i > pos && v[i - 1] == '\r' {
            i - 1
        } else {
            i
        };
        assert(v@.subrange(pos as int, piece_end as int) =~= first_line(t));
        let ghost before = out@;
        if !first {
            out.append(" | ");
        }
        out.append(reason.substring_char(pos, piece_end));
        first = false;
        let next = if i < n {
            i + 1
        } else {
            n
        };
        assert(v@.skip(next as int) =~= after_first_line(t));
        assert(error_text(reason@) =~= out@ + rest_text(v@.skip(next as int), false));
        pos = next;
    }
    assert(v@.skip(pos as int) =~= Seq::<char>::empty());
    assert(lines(Seq::<char>::empty()) =~= Seq::<Seq<char>>::empty());
    assert(out@ =~= out@ + rest_text(v@.skip(pos as int), first));
    out
}

/// The line for a failure of the extensions with `message`.
pub open spec fn extension_failure_text(message: Seq<char>) -> Seq<char> {
    error_text("falha na extensão: "@ + message)
}

/// The table after `ADD key ...` and the response, given what the
/// extensions answered: only a success writes, and it writes what the
/// extension returned.
pub open spec fn add_effect(
    table: Map<Seq<char>, Seq<char>>,
    key: Seq<char>,
    outcome: Result<ExtensionResultView, Seq<char>>,
) -> (Map<Seq<char>, Seq<char>>, EngineResponseView) {
    match outcome {
        Ok(ExtensionResultView::Success(stored)) => (
            table.insert(key, stored),
            EngineResponseView::Continue("OK"@),
        ),
        Ok(ExtensionResultView::Failure(reason)) => (
            table,
            EngineResponseView::Continue(error_text(reason)),
        ),
        Err(message) => (table, EngineResponseView::Continue(extension_failure_text(message))),
    }
}

/// The response to `GET` of a stored key, given what the extensions answered.
pub open spec fn get_response(outcome: Result<ExtensionResultView, Seq<char>>) -> EngineResponseView {
    match outcome {
        Ok(ExtensionResultView::Success(shown)) => EngineResponseView::Continue(shown),
        Ok(ExtensionResultView::Failure(reason)) => EngineResponseView::Continue(error_text(reason)),
        Err(message) => EngineResponseView::Continue(extension_failure_text(message)),
    }
}

/// The response to `GET` of a key that is not stored.
pub open spec fn missing_key_response() -> EngineResponseView {
    EngineResponseView::Continue("ERRO: chave inexistente"@)
}

/// The response to a command, the table after it and the extensions after
/// it (`lua` before), for every answer the extensions may give.
pub open spec fn command_effect(
    table: Map<Seq<char>, Seq<char>>,
    lua: LuaView,
    command: CommandView,
    after: Map<Seq<char>, Seq<char>>,
    after_lua: LuaView,
    response: EngineResponseView,
) -> bool {
    match command {
        CommandView::Exit => response == EngineResponseView::Exit && after == table && after_lua
            == lua,
        CommandView::Get { key } => after == table && if table.contains_key(key) {
            is_get_effect(table, lua, key, after_lua, response)
        } else {
            response == missing_key_response() && after_lua == lua
        },
        CommandView::Add { key, value } => is_add_effect(
            table,
            lua,
            key,
            value,
            after,
            after_lua,
            response,
        ),
    }
}

/// `GET key` of a stored key: `("GET", key, stored value)` was dispatched
/// to the extensions, with the table readable, and `response` is what their
/// answer gives.
pub open spec fn is_get_effect(
    table: Map<Seq<char>, Seq<char>>,
    lua: LuaView,
    key: Seq<char>,
    after_lua: LuaView,
    response: EngineResponseView,
) -> bool {
    exists|o: Result<ExtensionResultView, Seq<char>>|
        #[trigger] dispatch_effect("GET"@, key, table[key], table, lua, after_lua, o)
            && get_response(o) == response
}

/// `ADD key value`: `("ADD", key, value)` was dispatched to the extensions,
/// with the table readable, and `after` and `response` are what their
/// answer gives.
pub open spec fn is_add_effect(
    table: Map<Seq<char>, Seq<char>>,
    lua: LuaView,
    key: Seq<char>,
    value: Seq<char>,
    after: Map<Seq<char>, Seq<char>>,
    after_lua: LuaView,
    response: EngineResponseView,
) -> bool {
    exists|o: Result<ExtensionResultView, Seq<char>>|
        #[trigger] dispatch_effect("ADD"@, key, value, table, lua, after_lua, o) && add_effect(
            table,
            key,
            o,
        ) == (after, response)
}

/// The table and its extensions.
pub struct Engine {
    store: Store,
    extensions: LuaBridge,
}

impl View for Engine {
    type V = Map<Seq<char>, Seq<char>>;

    closed spec fn view(&self) -> Map<Seq<char>, Seq<char>> {
        self.store@
    }
}

impl Engine {
    /// The extensions of this engine, and what their Lua state was handed,
    /// in order.
    pub closed spec fn lua_state(&self) -> LuaView {
        self.extensions@
    }

    /// An empty table with the extensions of `scripts` loaded in order; each
    /// script is its name and its source, or the reason it could not be read.
    pub fn new(scripts: &Vec<(String, Result<String, String>)>) -> (r: Result<Self, String>)
        ensures
            match r {
                Ok(engine) => {
                    &&& engine@ == Map::<Seq<char>, Seq<char>>::empty()
                    &&& all_read(scripts@)
                    &&& scripts_ran(
                        scripts@,
                        Map::<Seq<char>, Seq<char>>::empty(),
                        engine.lua_state().log,
                    )
                    &&& engine.lua_state().extensions == registered_by(engine.lua_state().log)
                },
                Err(message) => exists|handed: Seq<LuaEvent>|
                    load_failed(
                        scripts@,
                        Map::<Seq<char>, Seq<char>>::empty(),
                        handed,
                        message@,
                    ),
            },
    {
        let store = Store::new();
        let loaded = LuaBridge::load(scripts, &store);
        proof {
            if loaded is Err {
                let e = loaded->Err_0;
                assert(load_failed(scripts@, Map::<Seq<char>, Seq<char>>::empty(), e.handed(), e@));
            }
        }
        Self::from_load(store, loaded)
    }

    /// The engine over `store` with the extensions that were loaded, or the
    /// message of the load error.
    pub fn from_load(store: Store, loaded: Result<LuaBridge, BridgeError>) -> (r: Result<
        Self,
        String,
    >)
        ensures
            match (loaded, r) {
                (Ok(bridge), Ok(engine)) => engine@ == store@ && engine.lua_state() == bridge@,
                (Err(error), Err(message)) => message@ == error@,
                _ => false,
            },
    {
        match loaded {
            Ok(extensions) => Ok(Engine { store, extensions }),
            Err(error) => Err(error.message()),
        }
    }

    /// Runs one command.
    pub fn execute(&mut self, command: Command) -> (r: EngineResponse)
        ensures
            command_effect(
                old(self)@,
                old(self).lua_state(),
                command@,
                final(self)@,
                final(self).lua_state(),
                r@,
            ),
    {
        match command {
            Command::Add { key, value } => self.add(key, value),
            Command::Get { key } => self.get(key),
            Command::Exit => EngineResponse::Exit,
        }
    }

    fn add(&mut self, key: String, value: String) -> (r: EngineResponse)
        ensures
            is_add_effect(
                old(self)@,
                old(self).lua_state(),
                key@,
                value@,
                final(self)@,
                final(self).lua_state(),
                r@,
            ),
    {
        let outcome = self.extensions.dispatch(&self.store, "ADD", key.as_str(), value.as_str());
        let ghost o = answer_view(outcome);
        let r = self.commit_add(key, outcome);
        assert(add_effect(old(self)@, key@, o) == (self@, r@));
        assert(dispatch_effect("ADD"@, key@, value@, old(self)@, old(self).lua_state(), self.lua_state(), o));
        r
    }

    fn get(&mut self, key: String) -> (r: EngineResponse)
        ensures
            final(self)@ == old(self)@,
            if old(self)@.contains_key(key@) {
                is_get_effect(old(self)@, old(self).lua_state(), key@, final(self).lua_state(), r@)
            } else {
                r@ == missing_key_response() && final(self).lua_state() == old(self).lua_state()
            },
    {
        let value = match self.store.get(key.as_str()) {
            Some(value) => value,
            None => {
                return EngineResponse::Continue(String::from_str("ERRO: chave inexistente"));
            },
        };
        let outcome = self.extensions.dispatch(&self.store, "GET", key.as_str(), value.as_str());
        let ghost o = answer_view(outcome);
        let r = Self::respond_get(outcome);
        assert(get_response(o) == r@);
        assert(dispatch_effect(
            "GET"@,
            key@,
            old(self)@[key@],
            old(self)@,
            old(self).lua_state(),
            self.lua_state(),
            o,
        ));
        r
    }

    /// Finishes `ADD key ...` once the extensions have answered: stores what
    /// a successful extension returned; leaves the table as it was otherwise.
    pub fn commit_add(&mut self, key: String, outcome: Result<ExtensionResult, BridgeError>) -> (r:
        EngineResponse)
        ensures
            (final(self)@, r@) == add_effect(old(self)@, key@, answer_view(outcome)),
            final(self).lua_state() == old(self).lua_state(),
    {
        match outcome {
            Ok(ExtensionResult::Success(stored)) => {
                self.store.insert(key, stored);
                EngineResponse::Continue(String::from_str("OK"))
            },
            Ok(ExtensionResult::Failure(reason)) => EngineResponse::Continue(
                error_line(reason.as_str()),
            ),
            Err(error) => EngineResponse::Continue(Self::extension_failure(&error)),
        }
    }

    /// The response to `GET` of a stored key once the extensions have answered.
    pub fn respond_get(outcome: Result<ExtensionResult, BridgeError>) -> (r: EngineResponse)
        ensures
            r@ == get_response(answer_view(outcome)),
    {
        match outcome {
            Ok(ExtensionResult::Success(shown)) => EngineResponse::Continue(shown),
            Ok(ExtensionResult::Failure(reason)) => EngineResponse::Continue(
                error_line(reason.as_str()),
            ),
            Err(error) => EngineResponse::Continue(Self::extension_failure(&error)),
        }
    }

    fn extension_failure(error: &BridgeError) -> (r: String)
        ensures
            r@ == extension_failure_text(error@),
    {
        let mut message = String::from_str("falha na extensão: ");
        message.append(error.message().as_str());
        error_line(message.as_str())
    }
}

/// Law: an `ADD` that the extension refuses, or that fails on the Lua side,
/// leaves the table exactly as it was.
pub proof fn law_refused_add_keeps_table(
    table: Map<Seq<char>, Seq<char>>,
    key: Seq<char>,
    outcome: Result<ExtensionResultView, Seq<char>>,
)
    requires
        !(outcome matches Ok(ExtensionResultView::Success(_))),
    ensures
        add_effect(table, key, outcome).0 == table,
        add_effect(table, key, outcome).1 != EngineResponseView::Continue("OK"@),
{
    reveal_strlit("OK");
    reveal_strlit("ERRO: ");
    let text = match add_effect(table, key, outcome).1 {
        EngineResponseView::Continue(t) => t,
        EngineResponseView::Exit => Seq::empty(),
    };
    match outcome {
        Ok(ExtensionResultView::Failure(reason)) => {
            law_error_line_is_one_line(reason);
        },
        Err(message) => {
            law_error_line_is_one_line("falha na extensão: "@ + message);
        },
        _ => {},
    }
    assert(text.take(6) == "ERRO: "@);
    if text == "OK"@ {
        assert(text.len() == 2);
    }
}

/// Law: an accepted `ADD` answers `OK` and stores what the extension
/// returned under the key; every other key keeps its value.
pub proof fn law_accepted_add_stores_value(
    table: Map<Seq<char>, Seq<char>>,
    key: Seq<char>,
    stored: Seq<char>,
    other: Seq<char>,
)
    requires
        other != key,
    ensures
        add_effect(table, key, Ok(ExtensionResultView::Success(stored))).1
            == EngineResponseView::Continue("OK"@),
        lookup(add_effect(table, key, Ok(ExtensionResultView::Success(stored))).0, key) == Some(
            stored,
        ),
        lookup(add_effect(table, key, Ok(ExtensionResultView::Success(stored))).0, other)
            == lookup(table, other),
{
}

/// Law: `GET` and `EXIT` never change the table, and `EXIT` does not
/// reach the extensions.
pub proof fn law_reads_keep_table(
    table: Map<Seq<char>, Seq<char>>,
    lua: LuaView,
    command: CommandView,
    after: Map<Seq<char>, Seq<char>>,
    after_lua: LuaView,
    response: EngineResponseView,
)
    requires
        !(command is Add),
        command_effect(table, lua, command, after, after_lua, response),
    ensures
        after == table,
        command is Exit ==> after_lua == lua,
{
}

/// Law: a `GET` of a key that is not stored never reaches the extensions.
pub proof fn law_missing_key_not_dispatched(
    table: Map<Seq<char>, Seq<char>>,
    lua: LuaView,
    key: Seq<char>,
    after: Map<Seq<char>, Seq<char>>,
    after_lua: LuaView,
    response: EngineResponseView,
)
    requires
        !table.contains_key(key),
        command_effect(table, lua, CommandView::Get { key }, after, after_lua, response),
    ensures
        after_lua == lua,
        after == table,
        response == missing_key_response(),
{
}

/// Law: once an `ADD` of a key was accepted with `stored` as the value to
/// keep, a `GET` of that key dispatches `("GET", key, stored)` to the
/// extensions and shows what their answer gives (the text of a success,
/// the error line of a refusal); it is never answered that the key is missing.
pub proof fn law_get_after_accepted_add_finds_key(
    table: Map<Seq<char>, Seq<char>>,
    lua: LuaView,
    key: Seq<char>,
    stored: Seq<char>,
    after: Map<Seq<char>, Seq<char>>,
    after_lua: LuaView,
    response: EngineResponseView,
)
    requires
        command_effect(
            add_effect(table, key, Ok(ExtensionResultView::Success(stored))).0,
            lua,
            CommandView::Get { key },
            after,
            after_lua,
            response,
        ),
    ensures
        exists|o: Result<ExtensionResultView, Seq<char>>|
            #[trigger] dispatch_effect(
                "GET"@,
                key,
                stored,
                add_effect(table, key, Ok(ExtensionResultView::Success(stored))).0,
                lua,
                after_lua,
                o,
            ) && get_response(o) == response,
{
}

/// Law: a key that no registered prefix begins is stored as given and read
/// back as stored, and neither command reaches the extensions.
pub proof fn law_unmatched_key_round_trip(
    table: Map<Seq<char>, Seq<char>>,
    lua: LuaView,
    key: Seq<char>,
    value: Seq<char>,
    after_add: Map<Seq<char>, Seq<char>>,
    lua_after_add: LuaView,
    added: EngineResponseView,
    after_get: Map<Seq<char>, Seq<char>>,
    lua_after_get: LuaView,
    shown: EngineResponseView,
)
    requires
        no_match(lua.extensions, key),
        command_effect(table, lua, CommandView::Add { key, value }, after_add, lua_after_add, added),
        command_effect(
            after_add,
            lua_after_add,
            CommandView::Get { key },
            after_get,
            lua_after_get,
            shown,
        ),
    ensures
        after_add == table.insert(key, value),
        added == EngineResponseView::Continue("OK"@),
        lua_after_add == lua,
        shown == EngineResponseView::Continue(value),
        lua_after_get == lua,
        after_get == after_add,
{
    law_unmatched_key_has_no_extension(lua.extensions, key);
    let o = choose|o: Result<ExtensionResultView, Seq<char>>|
        #[trigger] dispatch_effect("ADD"@, key, value, table, lua, lua_after_add, o) && add_effect(
            table,
            key,
            o,
        ) == (after_add, added);
    assert(o == Ok::<ExtensionResultView, Seq<char>>(ExtensionResultView::Success(value)));
    assert(after_add.contains_key(key));
    let g = choose|g: Result<ExtensionResultView, Seq<char>>|
        #[trigger] dispatch_effect("GET"@, key, after_add[key], after_add, lua_after_add, lua_after_get, g)
            && get_response(g) == shown;
    assert(g == Ok::<ExtensionResultView, Seq<char>>(ExtensionResultView::Success(value)));
}

} // verus!
