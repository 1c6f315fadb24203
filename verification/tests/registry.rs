use banco_memoria::registry::Registry;

fn register(registry: &mut Registry, prefix: &str) -> Option<String> {
    registry.register_extension((
        "table".to_string(),
        "string".to_string(),
        Some(prefix.to_string()),
        "function".to_string(),
        "nil".to_string(),
    ))
}

fn longest(registry: &Registry, key: &str) -> Option<String> {
    registry.longest_match(key).map(|extension| extension.prefix)
}

#[test]
fn refuses_a_prefix_registered_twice() {
    let mut registry = Registry::new();
    assert_eq!(register(&mut registry, "cpf_"), None);
    assert_eq!(register(&mut registry, "data_"), None);
    assert_eq!(
        register(&mut registry, "cpf_"),
        Some("prefixo já registrado: cpf_".to_string())
    );
}

#[test]
fn picks_the_longest_matching_prefix() {
    let mut registry = Registry::new();
    register(&mut registry, "a");
    register(&mut registry, "abc");
    register(&mut registry, "ab");
    register(&mut registry, "x");
    assert_eq!(longest(&registry, "abcd").as_deref(), Some("abc"));
    assert_eq!(longest(&registry, "abx").as_deref(), Some("ab"));
    assert_eq!(longest(&registry, "a").as_deref(), Some("a"));
    assert_eq!(longest(&registry, "b"), None);
    assert_eq!(longest(&registry, ""), None);
    assert_eq!(longest(&Registry::new(), "abc"), None);
}

#[test]
fn matches_by_characters() {
    let mut registry = Registry::new();
    register(&mut registry, "temperatura_");
    register(&mut registry, "té");
    assert_eq!(longest(&registry, "tésto").as_deref(), Some("té"));
    assert_eq!(longest(&registry, "te"), None);
}

fn attempt(
    registry: &mut Registry,
    extension: &str,
    prefix_type: &str,
    prefix: Option<&str>,
    add: &str,
    get: &str,
) -> Option<String> {
    registry.register_extension((
        extension.to_string(),
        prefix_type.to_string(),
        prefix.map(|p| p.to_string()),
        add.to_string(),
        get.to_string(),
    ))
}

#[test]
fn checks_each_registration_in_order() {
    let mut registry = Registry::new();
    assert_eq!(
        attempt(&mut registry, "string", "nil", None, "nil", "nil"),
        Some("o registro da extensão deve ser uma tabela".to_string())
    );
    let prefix_refusal = Some("o campo 'prefix' deve ser uma string não vazia e sem espaços".to_string());
    assert_eq!(attempt(&mut registry, "table", "number", None, "function", "nil"), prefix_refusal);
    assert_eq!(attempt(&mut registry, "table", "string", Some(""), "function", "nil"), prefix_refusal);
    assert_eq!(attempt(&mut registry, "table", "string", Some("a b"), "function", "nil"), prefix_refusal);
    assert_eq!(attempt(&mut registry, "table", "string", Some("a\tb"), "function", "nil"), prefix_refusal);
    assert_eq!(
        attempt(&mut registry, "table", "string", Some("p"), "string", "nil"),
        Some("o campo 'on_add', quando presente, deve ser uma função".to_string())
    );
    assert_eq!(
        attempt(&mut registry, "table", "string", Some("p"), "nil", "number"),
        Some("o campo 'on_get', quando presente, deve ser uma função".to_string())
    );
    assert_eq!(
        attempt(&mut registry, "table", "string", Some("p"), "nil", "nil"),
        Some("a extensão deve implementar 'on_add', 'on_get' ou ambos".to_string())
    );
    assert_eq!(longest(&registry, "p"), None);
    assert_eq!(attempt(&mut registry, "table", "string", Some("p"), "nil", "function"), None);
    let extension = registry.longest_match("pq").unwrap();
    assert_eq!((extension.on_add, extension.on_get), (false, true));
}
