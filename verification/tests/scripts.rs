use banco_memoria::scripts::script_order;

fn names(list: &[&str]) -> Vec<String> {
    list.iter().map(|n| n.to_string()).collect()
}

#[test]
fn keeps_lua_files_in_name_order() {
    let listing = names(&["temperatura.lua", "README.md", "cpf.lua", "data.lua", "notas.txt"]);
    assert_eq!(script_order(&listing), vec![2, 3, 0]);
}

#[test]
fn extension_follows_the_last_dot() {
    let listing = names(&[".lua", "a.b.lua", "x.lua.bak", "lua", "..lua", "b.LUA", "c.lua"]);
    assert_eq!(script_order(&listing), vec![4, 1, 6]);
}

#[test]
fn orders_by_code_point() {
    let listing = names(&["b.lua", "B.lua", "á.lua", "a.lua", "ab.lua"]);
    assert_eq!(script_order(&listing), vec![1, 3, 4, 0, 2]);
}

#[test]
fn empty_listing_has_no_scripts() {
    assert!(script_order(&Vec::new()).is_empty());
}

#[test]
fn listing_order_does_not_change_load_order() {
    let first = names(&["z.lua", "a.lua", "m.txt", "b.lua"]);
    let second = names(&["b.lua", "m.txt", "z.lua", "a.lua"]);
    let loaded = |listing: &Vec<String>| -> Vec<String> {
        script_order(listing).into_iter().map(|i| listing[i].clone()).collect()
    };
    assert_eq!(loaded(&first), vec!["a.lua", "b.lua", "z.lua"]);
    assert_eq!(loaded(&first), loaded(&second));
}
