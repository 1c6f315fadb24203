use banco_memoria::command::{parse, Command, ParsedLine};

#[test]
fn parses_add_and_preserves_spaces_inside_value() {
    assert_eq!(
        parse("ADD greeting hello world"),
        Ok(ParsedLine::Command(Command::Add {
            key: "greeting".to_string(),
            value: "hello world".to_string(),
        }))
    );
}

#[test]
fn parses_get_and_exit() {
    assert_eq!(
        parse("GET greeting"),
        Ok(ParsedLine::Command(Command::Get {
            key: "greeting".to_string(),
        }))
    );
    assert_eq!(parse("EXIT"), Ok(ParsedLine::Command(Command::Exit)));
}

#[test]
fn accepts_empty_line_without_command() {
    assert_eq!(parse("   \n"), Ok(ParsedLine::Empty));
}

#[test]
fn rejects_unknown_lowercase_and_incomplete_commands() {
    assert!(parse("add key value").is_err());
    assert!(parse("ADD key").is_err());
    assert!(parse("GET").is_err());
    assert!(parse("EXIT now").is_err());
}

#[test]
fn reports_each_refusal_with_its_reason() {
    assert_eq!(
        parse("add key value"),
        Err("comando desconhecido: add".to_string())
    );
    assert_eq!(
        parse("ADD"),
        Err("comando ADD incompleto: informe chave e valor".to_string())
    );
    assert_eq!(
        parse("ADD    "),
        Err("comando ADD incompleto: informe chave e valor".to_string())
    );
    assert_eq!(
        parse("ADD key"),
        Err("comando ADD incompleto: informe o valor".to_string())
    );
    assert_eq!(
        parse("ADD key "),
        Err("comando ADD incompleto: informe o valor".to_string())
    );
    assert_eq!(
        parse("GET"),
        Err("comando GET incompleto: informe a chave".to_string())
    );
    assert_eq!(
        parse("GET   "),
        Err("comando GET incompleto: informe a chave".to_string())
    );
    assert_eq!(
        parse("GET one two"),
        Err("GET recebe somente uma chave".to_string())
    );
    assert_eq!(
        parse("EXIT now"),
        Err("EXIT não recebe argumentos".to_string())
    );
}

#[test]
fn ignores_line_endings_and_keeps_inner_spacing() {
    assert_eq!(
        parse("ADD k  two  spaces \r\n"),
        Ok(ParsedLine::Command(Command::Add {
            key: "k".to_string(),
            value: " two  spaces ".to_string(),
        }))
    );
    assert_eq!(
        parse("ADD    key\tvalue"),
        Ok(ParsedLine::Command(Command::Add {
            key: "key".to_string(),
            value: "value".to_string(),
        }))
    );
    assert_eq!(
        parse("GET   key  \n"),
        Ok(ParsedLine::Command(Command::Get {
            key: "key".to_string(),
        }))
    );
    assert_eq!(parse("EXIT   \r\n"), Ok(ParsedLine::Command(Command::Exit)));
    assert_eq!(parse(""), Ok(ParsedLine::Empty));
    assert_eq!(parse("\r\n"), Ok(ParsedLine::Empty));
}

#[test]
fn treats_unicode_white_space_as_separator() {
    assert_eq!(
        parse("ADD chave\u{3000}valor com acentuação"),
        Ok(ParsedLine::Command(Command::Add {
            key: "chave".to_string(),
            value: "valor com acentuação".to_string(),
        }))
    );
    assert_eq!(
        parse("GET a\u{a0}b"),
        Err("GET recebe somente uma chave".to_string())
    );
}

#[test]
fn a_line_starting_with_white_space_has_an_empty_verb() {
    assert_eq!(
        parse(" ADD key value"),
        Err("comando desconhecido: ".to_string())
    );
}
