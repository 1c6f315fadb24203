//! The registered extensions: the checks a registration must pass, and
//! which extension a key falls under.

use vstd::prelude::*;

use crate::text::{chars_of, is_word_char, text_is};

verus! {

/// A registered extension: its prefix, and which handlers it has.
#[derive(Debug, Clone, PartialEq, Eq)]
pub struct Extension {
    pub prefix: String,
    pub on_add: bool,
    pub on_get: bool,
}

/// The mathematical value of an `Extension`.
pub struct ExtensionView {
    pub prefix: Seq<char>,
    pub on_add: bool,
    pub on_get: bool,
}

impl View for Extension {
    type V = ExtensionView;

    open spec fn view(&self) -> ExtensionView {
        ExtensionView { prefix: self.prefix@, on_add: self.on_add, on_get: self.on_get }
    }
}

/// Whether `prefix` begins `key`.
pub open spec fn is_prefix_of(prefix: Seq<char>, key: Seq<char>) -> bool {
    prefix.len() <= key.len() && key.take(prefix.len() as int) == prefix
}

/// No two extensions have the same prefix.
pub open spec fn prefixes_unique(extensions: Seq<ExtensionView>) -> bool {
    forall|i: int, j: int|
        0 <= i < extensions.len() && 0 <= j < extensions.len() && i != j ==> (
        #[trigger] extensions[i]).prefix != (#[trigger] extensions[j]).prefix
}

/// Whether some extension has `prefix`.
pub open spec fn has_prefix(extensions: Seq<ExtensionView>, prefix: Seq<char>) -> bool {
    exists|i: int| 0 <= i < extensions.len() && (#[trigger] extensions[i]).prefix == prefix
}

/// No extension's prefix begins `key`.
pub open spec fn no_match(extensions: Seq<ExtensionView>, key: Seq<char>) -> bool {
    forall|i: int| 0 <= i < extensions.len() ==> !is_prefix_of((#[trigger] extensions[i]).prefix, key)
}

/// `extension` is registered, its prefix begins `key`, and no registered
/// prefix that begins `key` is longer.
pub open spec fn is_longest_match(
    extensions: Seq<ExtensionView>,
    key: Seq<char>,
    extension: ExtensionView,
) -> bool {
    &&& extensions.contains(extension)
    &&& is_prefix_of(extension.prefix, key)
    &&& forall|i: int|
        0 <= i < extensions.len() && is_prefix_of((#[trigger] extensions[i]).prefix, key)
            ==> extensions[i].prefix.len() <= extension.prefix.len()
}

/// The extension with the longest prefix that begins `key`, if any.
pub open spec fn longest_extension(extensions: Seq<ExtensionView>, key: Seq<char>) -> Option<
    ExtensionView,
> {
    if exists|e: ExtensionView| is_longest_match(extensions, key, e) {
        Some(choose|e: ExtensionView| is_longest_match(extensions, key, e))
    } else {
        None
    }
}

/// The characters that Lua's `%s` class matches: tab, line feed, vertical
/// tab, form feed, carriage return and space.
pub open spec fn is_lua_space(c: char) -> bool {
    let n = c as u32;
    (9 <= n <= 13) || n == 32
}

/// Whether `s` holds a character of Lua's `%s` class.
pub open spec fn has_lua_space(s: Seq<char>) -> bool {
    exists|i: int| 0 <= i < s.len() && is_lua_space(#[trigger] s[i])
}

/// A prefix is a non-empty string without characters of Lua's `%s` class.
pub open spec fn is_valid_prefix(prefix_type: Seq<char>, prefix: Option<Seq<char>>) -> bool {
    prefix_type == "string"@ && match prefix {
        Some(p) => p.len() > 0 && !has_lua_space(p),
        None => false,
    }
}

/// Why a registration is refused, in the order of the checks, or `None`
/// when it is accepted. The registration is described by the Lua type
/// names of the extension and of its `prefix`, `on_add` and `on_get`
/// fields, and by the prefix when it is a string.
pub open spec fn registration_refusal(
    extensions: Seq<ExtensionView>,
    extension_type: Seq<char>,
    prefix_type: Seq<char>,
    prefix: Option<Seq<char>>,
    add_type: Seq<char>,
    get_type: Seq<char>,
) -> Option<Seq<char>> {
    if extension_type != "table"@ {
        Some("o registro da extensão deve ser uma tabela"@)
    } else if !is_valid_prefix(prefix_type, prefix) {
        Some("o campo 'prefix' deve ser uma string não vazia e sem espaços"@)
    } else if add_type != "nil"@ && add_type != "function"@ {
        Some("o campo 'on_add', quando presente, deve ser uma função"@)
    } else if get_type != "nil"@ && get_type != "function"@ {
        Some("o campo 'on_get', quando presente, deve ser uma função"@)
    } else if add_type == "nil"@ && get_type == "nil"@ {
        Some("a extensão deve implementar 'on_add', 'on_get' ou ambos"@)
    } else if has_prefix(extensions, prefix->Some_0) {
        Some("prefixo já registrado: "@ + prefix->Some_0)
    } else {
        None
    }
}

/// The extension that an accepted registration adds.
pub open spec fn registered_extension(
    prefix: Option<Seq<char>>,
    add_type: Seq<char>,
    get_type: Seq<char>,
) -> ExtensionView {
    ExtensionView {
        prefix: prefix->Some_0,
        on_add: add_type == "function"@,
        on_get: get_type == "function"@,
    }
}

/// The registered extensions; no prefix occurs twice.
pub struct Registry {
    entries: Vec<Extension>,
}

impl View for Registry {
    type V = Seq<ExtensionView>;

    closed spec fn view(&self) -> Seq<ExtensionView> {
        self.entries@.map_values(|e: Extension| e@)
    }
}

proof fn lemma_longest_is(extensions: Seq<ExtensionView>, key: Seq<char>, e: ExtensionView)
    requires
        prefixes_unique(extensions),
        is_longest_match(extensions, key, e),
    ensures
        longest_extension(extensions, key) == Some(e),
{
    let c = choose|c: ExtensionView| is_longest_match(extensions, key, c);
    law_longest_match_is_unique(extensions, key, c, e);
}

fn has_lua_space_in(s: &str) -> (b: bool)
    ensures
        b == has_lua_space(s@),
{
    let v = chars_of(s);
    let mut i: usize = 0;
    while i < v.len()
        invariant
            v@ == s@,
            0 <= i <= v@.len(),
            forall|j: int| 0 <= j < i ==> !is_lua_space(#[trigger] v@[j]),
        decreases v@.len() - i,
    {
        let n = v[i] as u32;
        if (9 <= n && n <= 13) || n == 32 {
            assert(is_lua_space(v@[i as int]));
            return true;
        }
        i = i + 1;
    }
    false
}

impl Registry {
    #[verifier::type_invariant]
    closed spec fn inv(&self) -> bool {
        prefixes_unique(self@)
    }

    /// No extension registered.
    pub fn new() -> (r: Self)
        ensures
            r@ == Seq::<ExtensionView>::empty(),
    {
        let r = Registry { entries: Vec::new() };
        assert(r@ =~= Seq::<ExtensionView>::empty());
        r
    }

    /// Whether some registered extension has `prefix`.
    fn contains_prefix(&self, prefix: &String) -> (r: bool)
        ensures
            r == has_prefix(self@, prefix@),
    {
        let mut i: usize = 0;
        while i < self.entries.len()
            invariant
                0 <= i <= self@.len(),
                self@.len() == self.entries@.len(),
                forall|j: int| 0 <= j < i ==> (#[trigger] self@[j]).prefix != prefix@,
            decreases self@.len() - i,
        {
            if self.entries[i].prefix == *prefix {
                assert(self@[i as int].prefix == prefix@);
                return true;
            }
            i = i + 1;
        }
        false
    }

    /// Checks a registration and, when it passes, registers the extension;
    /// otherwise answers why it is refused and registers nothing.
    /// The registration is given as the arguments of the Lua call: the Lua
    /// type names of the extension and of its `prefix` field, the prefix
    /// when it is a string, and the type names of its `on_add` and `on_get`
    /// fields.
    pub fn register_extension(&mut self, registration: (String, String, Option<String>, String, String)) -> (refusal: Option<String>)
        ensures
            ({
                let prefix = match registration.2 {
                    Some(p) => Some(p@),
                    None => None,
                };
                let expected = registration_refusal(
                    old(self)@,
                    registration.0@,
                    registration.1@,
                    prefix,
                    registration.3@,
                    registration.4@,
                );
                &&& match refusal {
                    Some(m) => expected == Some(m@),
                    None => expected == None::<Seq<char>>,
                }
                &&& if expected is None {
                    final(self)@ == old(self)@.push(
                        registered_extension(prefix, registration.3@, registration.4@),
                    )
                } else {
                    final(self)@ == old(self)@
                }
            }),
    {
        let extension_type = registration.0;
        let prefix_type = registration.1;
        let prefix = registration.2;
        let add_type = registration.3;
        let get_type = registration.4;
        proof {
            use_type_invariant(&*self);
        }
        if !text_is(extension_type.as_str(), "table") {
            return Some(String::from_str("o registro da extensão deve ser uma tabela"));
        }
        let valid_prefix = match &prefix {
            Some(p) => text_is(prefix_type.as_str(), "string") && chars_of(p.as_str()).len() > 0
                && !has_lua_space_in(p.as_str()),
            None => false,
        };
        if !valid_prefix {
            return Some(
                String::from_str("o campo 'prefix' deve ser uma string não vazia e sem espaços"),
            );
        }
        proof {
            reveal_strlit("nil");
            reveal_strlit("function");
            assert("nil"@ != "function"@) by {
                assert("nil"@[0] != "function"@[0]);
            }
        }
        let add_is_function = text_is(add_type.as_str(), "function");
        let get_is_function = text_is(get_type.as_str(), "function");
        if !text_is(add_type.as_str(), "nil") && !add_is_function {
            return Some(String::from_str("o campo 'on_add', quando presente, deve ser uma função"));
        }
        if !text_is(get_type.as_str(), "nil") && !get_is_function {
            return Some(String::from_str("o campo 'on_get', quando presente, deve ser uma função"));
        }
        if !add_is_function && !get_is_function {
            return Some(String::from_str("a extensão deve implementar 'on_add', 'on_get' ou ambos"));
        }
        let prefix = match prefix {
            Some(p) => p,
            None => {
                return None;
            },
        };
        if self.contains_prefix(&prefix) {
            let mut message = String::from_str("prefixo já registrado: ");
            message.append(prefix.as_str());
            return Some(message);
        }
        let extension = Extension { prefix, on_add: add_is_function, on_get: get_is_function };
        let ghost before = self@;
        let mut entries: Vec<Extension> = Vec::new();
        std::mem::swap(&mut entries, &mut self.entries);
        entries.push(extension);
        assert(entries@.map_values(|e: Extension| e@) =~= before.push(extension@));
        self.entries = entries;
        None
    }

    /// The extension with the longest prefix that begins `key`, if any.
    pub fn longest_match(&self, key: &str) -> (r: Option<Extension>)
        ensures
            match r {
                Some(e) => longest_extension(self@, key@) == Some(e@),
                None => longest_extension(self@, key@) == None::<ExtensionView>,
            },
    {
        proof {
            use_type_invariant(self);
        }
        let k = chars_of(key);
        let mut best: Option<usize> = None;
        let mut best_len: usize = 0;
        let mut i: usize = 0;
        while i < self.entries.len()
            invariant
                k@ == key@,
                0 <= i <= self@.len(),
                self@.len() == self.entries@.len(),
                match best {
                    Some(b) => {
                        &&& b < i
                        &&& is_prefix_of(self@[b as int].prefix, key@)
                        &&& best_len == self@[b as int].prefix.len()
                        &&& forall|j: int|
                            0 <= j < i && is_prefix_of((#[trigger] self@[j]).prefix, key@)
                                ==> self@[j].prefix.len() <= best_len
                    },
                    None => forall|j: int|
                        0 <= j < i ==> !is_prefix_of((#[trigger] self@[j]).prefix, key@),
                },
            decreases self@.len() - i,
        {
            let p = chars_of(self.entries[i].prefix.as_str());
            assert(p@ == self@[i as int].prefix);
            if starts_with(&k, &p) {
                match best {
                    Some(_) => {
                        if p.len() > best_len {
                            best = Some(i);
                            best_len = p.len();
                        }
                    },
                    None => {
                        best = Some(i);
                        best_len = p.len();
                    },
                }
            }
            i = i + 1;
        }
        match best {
            Some(b) => {
                let found = &self.entries[b];
                let e = Extension {
                    prefix: found.prefix.clone(),
                    on_add: found.on_add,
                    on_get: found.on_get,
                };
                assert(e@ == self@[b as int]);
                proof {
                    assert(self@.contains(self@[b as int]));
                    lemma_longest_is(self@, key@, e@);
                }
                Some(e)
            },
            None => {
                proof {
                    law_unmatched_key_has_no_extension(self@, key@);
                }
                None
            },
        }
    }
}

/// Whether `p` begins `k`.
fn starts_with(k: &Vec<char>, p: &Vec<char>) -> (r: bool)
    ensures
        r == is_prefix_of(p@, k@),
{
    if p.len() > k.len() {
        return false;
    }
    let mut i: usize = 0;
    while i < p.len()
        invariant
            p@.len() <= k@.len(),
            0 <= i <= p@.len(),
            forall|j: int| 0 <= j < i ==> k@[j] == p@[j],
        decreases p@.len() - i,
    {
        if k[i] != p[i] {
            assert(k@.take(p@.len() as int)[i as int] != p@[i as int]);
            return false;
        }
        i = i + 1;
    }
    assert(k@.take(p@.len() as int) =~= p@);
    true
}

/// Law: a key falls under at most one extension, when no two extensions
/// share a prefix.
pub proof fn law_longest_match_is_unique(
    extensions: Seq<ExtensionView>,
    key: Seq<char>,
    a: ExtensionView,
    b: ExtensionView,
)
    requires
        prefixes_unique(extensions),
        is_longest_match(extensions, key, a),
        is_longest_match(extensions, key, b),
    ensures
        a == b,
{
    let i = choose|i: int| 0 <= i < extensions.len() && extensions[i] == a;
    let j = choose|j: int| 0 <= j < extensions.len() && extensions[j] == b;
    assert(extensions[i].prefix.len() <= b.prefix.len());
    assert(extensions[j].prefix.len() <= a.prefix.len());
    assert(a.prefix =~= key.take(a.prefix.len() as int));
    assert(b.prefix =~= key.take(b.prefix.len() as int));
}

/// Law: a key that no registered prefix begins falls under no extension.
pub proof fn law_unmatched_key_has_no_extension(extensions: Seq<ExtensionView>, key: Seq<char>)
    requires
        no_match(extensions, key),
    ensures
        longest_extension(extensions, key) == None::<ExtensionView>,
{
    if exists|e: ExtensionView| is_longest_match(extensions, key, e) {
        let e = choose|e: ExtensionView| is_longest_match(extensions, key, e);
        let j = choose|j: int| 0 <= j < extensions.len() && extensions[j] == e;
        assert(is_prefix_of(extensions[j].prefix, key));
    }
}

/// Law: with no extension registered, no key falls under one.
pub proof fn law_no_extension_no_match(key: Seq<char>)
    ensures
        longest_extension(Seq::<ExtensionView>::empty(), key) == None::<ExtensionView>,
{
    if exists|e: ExtensionView| is_longest_match(Seq::<ExtensionView>::empty(), key, e) {
        let e = choose|e: ExtensionView| is_longest_match(Seq::<ExtensionView>::empty(), key, e);
        assert(Seq::<ExtensionView>::empty().contains(e));
    }
}

/// Law: a table whose prefix is a non-empty string with no tab, line feed,
/// vertical tab, form feed, carriage return or space, whose handlers are
/// functions or absent with at least one present, and whose prefix is not
/// registered yet, is accepted.
pub proof fn law_prefix_without_space_accepted(
    extensions: Seq<ExtensionView>,
    prefix: Seq<char>,
    add_type: Seq<char>,
    get_type: Seq<char>,
)
    requires
        prefix.len() > 0,
        forall|i: int|
            0 <= i < prefix.len() ==> {
                let n = #[trigger] prefix[i] as u32;
                !(9 <= n <= 13) && n != 32
            },
        add_type == "function"@ || add_type == "nil"@,
        get_type == "function"@ || get_type == "nil"@,
        add_type == "function"@ || get_type == "function"@,
        forall|i: int| 0 <= i < extensions.len() ==> (#[trigger] extensions[i]).prefix != prefix,
    ensures
        registration_refusal(extensions, "table"@, "string"@, Some(prefix), add_type, get_type)
            == None::<Seq<char>>,
{
    reveal_strlit("nil");
    reveal_strlit("function");
    assert("nil"@ != "function"@) by {
        assert("nil"@[0] != "function"@[0]);
    }
    if has_lua_space(prefix) {
        let i = choose|i: int| 0 <= i < prefix.len() && is_lua_space(#[trigger] prefix[i]);
        assert(!is_lua_space(prefix[i]));
    }
}

/// Law: a prefix made of letters, digits and `_` is accepted, under the
/// same conditions on the handlers and on the prefixes already registered.
pub proof fn law_word_prefix_accepted(
    extensions: Seq<ExtensionView>,
    prefix: Seq<char>,
    add_type: Seq<char>,
    get_type: Seq<char>,
)
    requires
        prefix.len() > 0,
        forall|i: int| 0 <= i < prefix.len() ==> is_word_char(#[trigger] prefix[i]),
        add_type == "function"@ || add_type == "nil"@,
        get_type == "function"@ || get_type == "nil"@,
        add_type == "function"@ || get_type == "function"@,
        forall|i: int| 0 <= i < extensions.len() ==> (#[trigger] extensions[i]).prefix != prefix,
    ensures
        registration_refusal(extensions, "table"@, "string"@, Some(prefix), add_type, get_type)
            == None::<Seq<char>>,
{
    assert forall|i: int| 0 <= i < prefix.len() implies {
        let n = #[trigger] prefix[i] as u32;
        !(9 <= n <= 13) && n != 32
    } by {
        assert(is_word_char(prefix[i]));
    }
    law_prefix_without_space_accepted(extensions, prefix, add_type, get_type);
}

/// Law: a table whose prefix holds a tab, line feed, vertical tab, form
/// feed, carriage return or space is refused for its prefix.
pub proof fn law_prefix_with_space_refused(
    extensions: Seq<ExtensionView>,
    prefix: Seq<char>,
    i: int,
    add_type: Seq<char>,
    get_type: Seq<char>,
)
    requires
        0 <= i < prefix.len(),
        (9 <= prefix[i] as u32 <= 13) || prefix[i] as u32 == 32,
    ensures
        registration_refusal(extensions, "table"@, "string"@, Some(prefix), add_type, get_type)
            == Some("o campo 'prefix' deve ser uma string não vazia e sem espaços"@),
{
    assert(is_lua_space(prefix[i]));
    assert(has_lua_space(prefix));
}

} // verus!
