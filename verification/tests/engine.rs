use banco_memoria::command::Command;
use banco_memoria::engine::{error_line, Engine, EngineResponse};
use banco_memoria::lua_bridge::{BridgeError, ExtensionResult, LuaBridge};
use banco_memoria::storage::Store;
use banco_memoria::session::{handle_line, Reply};

fn engine() -> Engine {
    Engine::new(&Vec::new()).expect("um motor sem extensões deve iniciar")
}

fn engine_with(scripts: &[(&str, &str)]) -> Result<Engine, String> {
    let scripts: Vec<(String, Result<String, String>)> = scripts
        .iter()
        .map(|(name, source)| (name.to_string(), Ok(source.to_string())))
        .collect();
    Engine::new(&scripts)
}

fn add(engine: &mut Engine, key: &str, value: &str) -> EngineResponse {
    engine.execute(Command::Add {
        key: key.to_string(),
        value: value.to_string(),
    })
}

fn get(engine: &mut Engine, key: &str) -> EngineResponse {
    engine.execute(Command::Get {
        key: key.to_string(),
    })
}

fn line(text: &str) -> EngineResponse {
    EngineResponse::Continue(text.to_string())
}

const EXAMPLE: &str = r#"
local function validate(_, value)
    if value == "" then
        return { ok = false, error = "o valor não pode ser vazio" }
    end
    return { ok = true, value = value }
end

local function format(_, value)
    return { ok = true, value = "[" .. value .. "]" }
end

register_extension({
    prefix = "exemplo_",
    on_add = validate,
    on_get = format,
})
"#;

const UNIQUE: &str = r#"
local function unique(key, value)
    if value == "bad" then
        return { ok = false, error = "valor proibido\nsegunda linha" }
    end
    local owner = db_find_key_by_value(value, key)
    if owner ~= nil then
        return { ok = false, error = "já usado por " .. owner }
    end
    return { ok = true, value = value }
end

register_extension({ prefix = "u_", on_add = unique })
"#;

#[test]
fn stores_unmatched_keys_without_transformation() {
    let mut engine = engine();
    assert_eq!(
        engine.execute(Command::Add {
            key: "plain_key".to_string(),
            value: "value with spaces".to_string(),
        }),
        EngineResponse::Continue("OK".to_string())
    );
    assert_eq!(
        engine.execute(Command::Get {
            key: "plain_key".to_string(),
        }),
        EngineResponse::Continue("value with spaces".to_string())
    );
}

#[test]
fn reports_missing_key_without_stopping() {
    let mut engine = engine();
    assert_eq!(
        engine.execute(Command::Get {
            key: "missing_key".to_string(),
        }),
        EngineResponse::Continue("ERRO: chave inexistente".to_string())
    );
}

#[test]
fn exit_ends_the_session() {
    let mut engine = engine();
    assert_eq!(engine.execute(Command::Exit), EngineResponse::Exit);
}

#[test]
fn extension_formats_on_get_and_validates_on_add() {
    let mut engine = engine_with(&[("exemplo.lua", EXAMPLE)]).unwrap();
    assert_eq!(add(&mut engine, "exemplo_item", "texto"), line("OK"));
    assert_eq!(get(&mut engine, "exemplo_item"), line("[texto]"));
    assert_eq!(add(&mut engine, "outra", "texto"), line("OK"));
    assert_eq!(get(&mut engine, "outra"), line("texto"));
}

#[test]
fn refused_overwrite_keeps_previous_value() {
    let mut engine = engine_with(&[("unique.lua", UNIQUE)]).unwrap();
    assert_eq!(add(&mut engine, "u_a", "1"), line("OK"));
    assert_eq!(add(&mut engine, "u_a", "1"), line("OK"));
    assert_eq!(add(&mut engine, "u_b", "1"), line("ERRO: já usado por u_a"));
    assert_eq!(get(&mut engine, "u_b"), line("ERRO: chave inexistente"));
    assert_eq!(
        add(&mut engine, "u_a", "bad"),
        line("ERRO: valor proibido | segunda linha")
    );
    assert_eq!(get(&mut engine, "u_a"), line("1"));
}

#[test]
fn longest_prefix_wins() {
    let short = r#"register_extension({ prefix = "a", on_get = function(_, v) return { ok = true, value = "short " .. v } end })"#;
    let long = r#"register_extension({ prefix = "ab", on_get = function(_, v) return { ok = true, value = "long " .. v } end })"#;
    let mut engine = engine_with(&[("1.lua", short), ("2.lua", long)]).unwrap();
    assert_eq!(add(&mut engine, "abc", "x"), line("OK"));
    assert_eq!(add(&mut engine, "ac", "y"), line("OK"));
    assert_eq!(get(&mut engine, "abc"), line("long x"));
    assert_eq!(get(&mut engine, "ac"), line("short y"));
}

#[test]
fn extension_errors_become_error_lines() {
    let broken = r#"register_extension({ prefix = "x_", on_add = function() return 42 end, on_get = function() error("boom") end })"#;
    let mut engine = engine_with(&[("broken.lua", broken)]).unwrap();
    match add(&mut engine, "x_key", "v") {
        EngineResponse::Continue(text) => {
            assert!(text.starts_with("ERRO: falha na extensão: "));
            assert!(!text.contains('\n'));
        }
        EngineResponse::Exit => panic!("ADD não encerra"),
    }
    assert_eq!(get(&mut engine, "x_key"), line("ERRO: chave inexistente"));
}

#[test]
fn invalid_registrations_stop_the_start() {
    let duplicated = r#"register_extension({ prefix = "p", on_add = function(_, v) return { ok = true, value = v } end })"#;
    let error = engine_with(&[("a.lua", duplicated), ("b.lua", duplicated)])
        .err()
        .expect("prefixo repetido deve falhar");
    assert!(error.starts_with("falha ao carregar b.lua: "));
    assert!(error.contains("prefixo já registrado: p"));

    let no_handler = r#"register_extension({ prefix = "p" })"#;
    let error = engine_with(&[("c.lua", no_handler)]).err().unwrap();
    assert!(error.starts_with("falha ao carregar c.lua: "));
}

#[test]
fn unreadable_script_reports_its_reason() {
    let scripts = vec![
        ("a.lua".to_string(), Ok("-- nada".to_string())),
        ("b.lua".to_string(), Err("não foi possível ler b.lua".to_string())),
    ];
    assert_eq!(
        Engine::new(&scripts).err(),
        Some("não foi possível ler b.lua".to_string())
    );
}

#[test]
fn store_queries_see_current_table_during_load_and_calls() {
    let probe = r#"
local cached_get = db_get
assert(db_get("nothing") == nil)
register_extension({ prefix = "q_", on_get = function(_, v)
    return { ok = true, value = (cached_get("plain") or "nil") .. "/" .. v }
end })
"#;
    let mut engine = engine_with(&[("probe.lua", probe)]).unwrap();
    assert_eq!(add(&mut engine, "plain", "p"), line("OK"));
    assert_eq!(add(&mut engine, "q_x", "v"), line("OK"));
    assert_eq!(get(&mut engine, "q_x"), line("p/v"));
}

#[test]
fn commit_add_writes_only_on_success() {
    let mut engine = engine();
    assert_eq!(
        engine.commit_add(
            "k".to_string(),
            Ok(ExtensionResult::Success("stored".to_string()))
        ),
        line("OK")
    );
    assert_eq!(
        engine.commit_add(
            "k".to_string(),
            Ok(ExtensionResult::Failure("motivo".to_string()))
        ),
        line("ERRO: motivo")
    );
    assert_eq!(
        engine.commit_add(
            "k".to_string(),
            Err(BridgeError::new("quebrou".to_string()))
        ),
        line("ERRO: falha na extensão: quebrou")
    );
    assert_eq!(get(&mut engine, "k"), line("stored"));
}

#[test]
fn respond_get_shows_the_answer() {
    assert_eq!(
        Engine::respond_get(Ok(ExtensionResult::Success("shown".to_string()))),
        line("shown")
    );
    assert_eq!(
        Engine::respond_get(Ok(ExtensionResult::Failure("a\r\nb\n".to_string()))),
        line("ERRO: a | b")
    );
}

#[test]
fn error_line_joins_lines() {
    assert_eq!(error_line("simples"), "ERRO: simples");
    assert_eq!(error_line(""), "ERRO: ");
    assert_eq!(error_line("a\nb\r\nc"), "ERRO: a | b | c");
    assert_eq!(error_line("a\n\nb\n"), "ERRO: a |  | b");
    assert_eq!(error_line("fim\r"), "ERRO: fim\r");
    assert_eq!(error_line("\n"), "ERRO: ");
}

#[test]
fn session_replies_to_lines() {
    let mut engine = engine();
    assert_eq!(handle_line(&mut engine, "\n"), Reply::Silent);
    assert_eq!(
        handle_line(&mut engine, "ADD nome_usuario Maria da Silva\n"),
        Reply::Show("OK".to_string())
    );
    assert_eq!(
        handle_line(&mut engine, "GET nome_usuario\n"),
        Reply::Show("Maria da Silva".to_string())
    );
    assert_eq!(
        handle_line(&mut engine, "get nome_usuario\n"),
        Reply::Show("ERRO: comando desconhecido: get".to_string())
    );
    assert_eq!(handle_line(&mut engine, "EXIT\n"), Reply::Stop);
}

#[test]
fn bridge_dispatch_reads_answers() {
    let store = Store::new();
    let scripts = vec![
        ("e.lua".to_string(), Ok(EXAMPLE.to_string())),
        (
            "g.lua".to_string(),
            Ok(r#"register_extension({ prefix = "g_", on_get = function(_, v) return { ok = false, error = "não" } end })"#.to_string()),
        ),
    ];
    let mut bridge = LuaBridge::load(&scripts, &store).ok().expect("as extensões carregam");
    let answer = |b: &mut LuaBridge, op: &str, key: &str, value: &str| match b.dispatch(&store, op, key, value) {
        Ok(ExtensionResult::Success(t)) => format!("ok:{t}"),
        Ok(ExtensionResult::Failure(t)) => format!("falha:{t}"),
        Err(e) => format!("erro:{}", e.message()),
    };
    assert_eq!(answer(&mut bridge, "GET", "sem_prefixo", "v"), "ok:v");
    assert_eq!(answer(&mut bridge, "OUTRA", "sem_prefixo", "v"), "ok:v");
    assert_eq!(answer(&mut bridge, "GET", "exemplo_x", "v"), "ok:[v]");
    assert_eq!(answer(&mut bridge, "ADD", "exemplo_x", ""), "falha:o valor não pode ser vazio");
    assert_eq!(answer(&mut bridge, "ADD", "g_x", "v"), "ok:v");
    assert_eq!(answer(&mut bridge, "GET", "g_x", "v"), "falha:não");
    assert!(answer(&mut bridge, "OUTRA", "g_x", "v").contains("operação desconhecida enviada à VM"));
}

#[test]
fn extensions_may_register_while_handling() {
    let late = r#"
register_extension({ prefix = "boot_", on_add = function(_, v)
    register_extension({ prefix = "late_", on_get = function(_, w) return { ok = true, value = "late " .. w } end })
    return { ok = true, value = v }
end })
"#;
    let mut engine = engine_with(&[("late.lua", late)]).unwrap();
    assert_eq!(add(&mut engine, "late_k", "x"), line("OK"));
    assert_eq!(get(&mut engine, "late_k"), line("x"));
    assert_eq!(add(&mut engine, "boot_k", "y"), line("OK"));
    assert_eq!(get(&mut engine, "late_k"), line("late x"));
    match add(&mut engine, "boot_k", "z") {
        EngineResponse::Continue(text) => assert!(text.contains("prefixo já registrado: late_")),
        EngineResponse::Exit => panic!("ADD não encerra"),
    }
}

#[test]
fn answers_outside_the_protocol_are_errors() {
    let store = Store::new();
    let script = r#"
local answers = {
    empty_error = { ok = false, error = "" },
    flag_text = { ok = "yes" },
    value_number = { ok = true, value = 5 },
    error_missing = { ok = false },
}
register_extension({ prefix = "p_", on_get = function(key, v)
    if key == "p_not_table" then return 42 end
    if key == "p_fails" then error("quebrou aqui") end
    return answers[v]
end })
"#;
    let scripts = vec![("p.lua".to_string(), Ok(script.to_string()))];
    let mut bridge = LuaBridge::load(&scripts, &store).ok().expect("a extensão carrega");
    let error = |b: &mut LuaBridge, key: &str, value: &str| match b.dispatch(&store, "GET", key, value) {
        Err(e) => e.message(),
        Ok(_) => panic!("resposta fora do protocolo deve ser erro"),
    };
    let ok_message = "a extensão deve retornar uma tabela com o campo booleano 'ok'";
    let error_message = "um resultado de falha deve conter o campo string não vazio 'error'";
    assert_eq!(error(&mut bridge, "p_x", "empty_error"), error_message);
    assert_eq!(error(&mut bridge, "p_x", "error_missing"), error_message);
    assert_eq!(error(&mut bridge, "p_x", "flag_text"), ok_message);
    assert_eq!(
        error(&mut bridge, "p_x", "value_number"),
        "um resultado de sucesso deve conter o campo string 'value'"
    );
    assert_eq!(error(&mut bridge, "p_x", "nothing"), ok_message);
    assert_eq!(error(&mut bridge, "p_not_table", "v"), ok_message);
    assert!(error(&mut bridge, "p_fails", "v").contains("quebrou aqui"));
    assert_eq!(
        bridge.dispatch(&store, "ADD", "p_x", "v").ok(),
        Some(ExtensionResult::Success("v".to_string()))
    );
}

#[test]
fn loading_no_scripts_keeps_every_value() {
    let store = Store::new();
    let mut bridge = LuaBridge::load(&Vec::new(), &store).ok().expect("o runtime carrega");
    for operation in ["ADD", "GET"] {
        for key in ["", "a", "exemplo_x"] {
            assert_eq!(
                bridge.dispatch(&store, operation, key, "valor").ok(),
                Some(ExtensionResult::Success("valor".to_string()))
            );
        }
    }
}
