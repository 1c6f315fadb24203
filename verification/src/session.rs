//! One step of an interactive session: what to do with a line of input.

use vstd::prelude::*;

use crate::command::{parse, spec_parse, ParsedLine, ParsedLineView};
use crate::engine::{command_effect, Engine, EngineResponse, EngineResponseView};
use crate::lua_state::LuaView;

verus! {

/// What the session does after a line.
#[derive(Debug, Clone, PartialEq, Eq)]
pub enum Reply {
    /// Nothing to show; read the next line.
    Silent,
    /// Show this line, then read the next one.
    Show(String),
    /// End the session.
    Stop,
}

/// The mathematical value of a `Reply`.
pub enum ReplyView {
    Silent,
    Show(Seq<char>),
    Stop,
}

impl View for Reply {
    type V = ReplyView;

    open spec fn view(&self) -> ReplyView {
        match self {
            Reply::Silent => ReplyView::Silent,
            Reply::Show(text) => ReplyView::Show(text@),
            Reply::Stop => ReplyView::Stop,
        }
    }
}

/// The reply that stands for an engine response.
pub open spec fn reply_of(response: EngineResponseView) -> ReplyView {
    match response {
        EngineResponseView::Continue(text) => ReplyView::Show(text),
        EngineResponseView::Exit => ReplyView::Stop,
    }
}

/// What a line does: an empty line is skipped, a refused line is reported
/// as `ERRO: <reason>`, a command runs on the engine. Only a command can
/// change the table or reach the extensions.
pub open spec fn line_effect(
    table: Map<Seq<char>, Seq<char>>,
    lua: LuaView,
    line: Seq<char>,
    after: Map<Seq<char>, Seq<char>>,
    after_lua: LuaView,
    reply: ReplyView,
) -> bool {
    match spec_parse(line) {
        Ok(ParsedLineView::Empty) => after == table && after_lua == lua && reply
            == ReplyView::Silent,
        Ok(ParsedLineView::Command(command)) => exists|response: EngineResponseView|
            #[trigger] reply_of(response) == reply && command_effect(
                table,
                lua,
                command,
                after,
                after_lua,
                response,
            ),
        Err(reason) => after == table && after_lua == lua && reply == ReplyView::Show(
            "ERRO: "@ + reason,
        ),
    }
}

/// Handles one line of input.
pub fn handle_line(engine: &mut Engine, line: &str) -> (reply: Reply)
    ensures
        line_effect(
            old(engine)@,
            old(engine).lua_state(),
            line@,
            final(engine)@,
            final(engine).lua_state(),
            reply@,
        ),
{
    match parse(line) {
        Ok(ParsedLine::Empty) => Reply::Silent,
        Ok(ParsedLine::Command(command)) => {
            let ghost c = command@;
            let response = engine.execute(command);
            let reply = match response {
                EngineResponse::Continue(text) => Reply::Show(text),
                EngineResponse::Exit => Reply::Stop,
            };
            assert(reply_of(response@) == reply@);
            reply
        },
        Err(reason) => {
            let mut text = String::from_str("ERRO: ");
            text.append(reason.as_str());
            Reply::Show(text)
        },
    }
}

} // verus!
