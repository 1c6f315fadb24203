//! The in-memory table of keys and values.

use vstd::prelude::*;

verus! {

/// A table from keys to values; a key occurs at most once.
pub struct Store {
    entries: Vec<(String, String)>,
}

/// The entries of a table as pairs of character sequences.
pub open spec fn pairs_of(entries: Seq<(String, String)>) -> Seq<(Seq<char>, Seq<char>)> {
    entries.map_values(|e: (String, String)| (e.0@, e.1@))
}

/// No key occurs twice.
pub open spec fn keys_unique(p: Seq<(Seq<char>, Seq<char>)>) -> bool {
    forall|i: int, j: int| 0 <= i < p.len() && 0 <= j < p.len() && i != j ==> p[i].0 != p[j].0
}

/// Whether `p` holds an entry for `k`.
pub open spec fn has_key(p: Seq<(Seq<char>, Seq<char>)>, k: Seq<char>) -> bool {
    exists|i: int| 0 <= i < p.len() && #[trigger] p[i].0 == k
}

/// The map that a sequence of entries stands for.
pub open spec fn map_of(p: Seq<(Seq<char>, Seq<char>)>) -> Map<Seq<char>, Seq<char>> {
    Map::new(
        |k: Seq<char>| has_key(p, k),
        |k: Seq<char>| p[choose|i: int| 0 <= i < p.len() && #[trigger] p[i].0 == k].1,
    )
}

/// What a lookup of `key` in `m` gives.
pub open spec fn lookup(m: Map<Seq<char>, Seq<char>>, key: Seq<char>) -> Option<Seq<char>> {
    if m.contains_key(key) {
        Some(m[key])
    } else {
        None
    }
}

/// The characters of an optional key.
pub open spec fn key_view(key: Option<&str>) -> Option<Seq<char>> {
    match key {
        Some(k) => Some(k@),
        None => None,
    }
}

/// Whether `key` may be answered to a search for `value` that excludes `except_key`.
pub open spec fn matches_search(
    m: Map<Seq<char>, Seq<char>>,
    key: Seq<char>,
    value: Seq<char>,
    except_key: Option<Seq<char>>,
) -> bool {
    &&& m.contains_key(key)
    &&& m[key] == value
    &&& except_key != Some(key)
}

proof fn lemma_value_at(p: Seq<(Seq<char>, Seq<char>)>, i: int)
    requires
        keys_unique(p),
        0 <= i < p.len(),
    ensures
        map_of(p).contains_key(p[i].0),
        map_of(p)[p[i].0] == p[i].1,
{
    let k = p[i].0;
    assert(has_key(p, k));
    let j = choose|j: int| 0 <= j < p.len() && #[trigger] p[j].0 == k;
    assert(j == i);
}

impl View for Store {
    type V = Map<Seq<char>, Seq<char>>;

    closed spec fn view(&self) -> Map<Seq<char>, Seq<char>> {
        map_of(pairs_of(self.entries@))
    }
}

impl Store {
    #[verifier::type_invariant]
    closed spec fn inv(&self) -> bool {
        keys_unique(pairs_of(self.entries@))
    }

    /// An empty table.
    pub fn new() -> (s: Self)
        ensures
            s@ == Map::<Seq<char>, Seq<char>>::empty(),
    {
        let s = Store { entries: Vec::new() };
        assert(s@ =~= Map::<Seq<char>, Seq<char>>::empty());
        s
    }

    /// Position of `key` among the entries, if it is there.
    fn position(&self, key: &String) -> (r: Option<usize>)
        ensures
            match r {
                Some(i) => i < self.entries@.len() && pairs_of(self.entries@)[i as int].0 == key@,
                None => !has_key(pairs_of(self.entries@), key@),
            },
    {
        let ghost p = pairs_of(self.entries@);
        let mut i: usize = 0;
        while i < self.entries.len()
            invariant
                p == pairs_of(self.entries@),
                0 <= i <= self.entries@.len(),
                forall|j: int| 0 <= j < i ==> #[trigger] p[j].0 != key@,
            decreases self.entries@.len() - i,
        {
            if self.entries[i].0 == *key {
                return Some(i);
            }
            i = i + 1;
        }
        None
    }

    /// Stores `value` under `key`, replacing what was there.
    pub fn insert(&mut self, key: String, value: String)
        ensures
            final(self)@ == old(self)@.insert(key@, value@),
    {
        proof {
            use_type_invariant(&*self);
        }
        let ghost p = pairs_of(self.entries@);
        let ghost k = key@;
        let ghost val = value@;
        let found = self.position(&key);
        let mut entries: Vec<(String, String)> = Vec::new();
        std::mem::swap(&mut entries, &mut self.entries);
        match found {
            Some(i) => {
                entries.set(i, (key, value));
                let ghost q = pairs_of(entries@);
                assert(q =~= p.update(i as int, (k, val)));
                assert forall|a: int, b: int|
                    0 <= a < q.len() && 0 <= b < q.len() && a != b implies q[a].0 != q[b].0 by {
                    assert(q[a].0 == p[a].0);
                    assert(q[b].0 == p[b].0);
                }
                assert forall|x: Seq<char>| #[trigger] has_key(q, x) == has_key(p, x) by {
                    if has_key(p, x) {
                        let j = choose|j: int| 0 <= j < p.len() && #[trigger] p[j].0 == x;
                        assert(q[j].0 == x);
                    }
                    if has_key(q, x) {
                        let j = choose|j: int| 0 <= j < q.len() && #[trigger] q[j].0 == x;
                        assert(p[j].0 == x);
                    }
                }
                assert forall|x: Seq<char>| #[trigger] map_of(q).contains_key(x) implies map_of(q)[x]
                    == map_of(p).insert(k, val)[x] by {
                    let j = choose|j: int| 0 <= j < q.len() && #[trigger] q[j].0 == x;
                    lemma_value_at(q, j);
                    if j != i {
                        lemma_value_at(p, j);
                    }
                }
                assert(map_of(q) =~= map_of(p).insert(k, val));
                self.entries = entries;
            },
            None => {
                entries.push((key, value));
                let ghost q = pairs_of(entries@);
                assert(q =~= p.push((k, val)));
                assert forall|x: Seq<char>| #[trigger] has_key(q, x) == (has_key(p, x) || x == k) by {
                    if has_key(p, x) {
                        let j = choose|j: int| 0 <= j < p.len() && #[trigger] p[j].0 == x;
                        assert(q[j].0 == x);
                    }
                    if x == k {
                        assert(q[p.len() as int].0 == x);
                    }
                    if has_key(q, x) && x != k {
                        let j = choose|j: int| 0 <= j < q.len() && #[trigger] q[j].0 == x;
                        assert(p[j].0 == x);
                    }
                }
                assert forall|x: Seq<char>| #[trigger] map_of(q).contains_key(x) implies map_of(q)[x]
                    == map_of(p).insert(k, val)[x] by {
                    let j = choose|j: int| 0 <= j < q.len() && #[trigger] q[j].0 == x;
                    lemma_value_at(q, j);
                    if j != p.len() {
                        lemma_value_at(p, j);
                    }
                }
                assert(map_of(q) =~= map_of(p).insert(k, val));
                self.entries = entries;
            },
        }
    }

    /// The value stored under `key`, if any.
    pub fn get(&self, key: &str) -> (r: Option<String>)
        ensures
            match r {
                Some(v) => lookup(self@, key@) == Some(v@),
                None => lookup(self@, key@) == None::<Seq<char>>,
            },
    {
        proof {
            use_type_invariant(self);
        }
        let wanted = String::from_str(key);
        match self.position(&wanted) {
            Some(i) => {
                proof {
                    lemma_value_at(pairs_of(self.entries@), i as int);
                }
                Some(self.entries[i].1.clone())
            },
            None => None,
        }
    }

    /// A key whose value is `value`, other than `except_key`; `None` when
    /// there is no such key.
    pub fn find_key_by_value(&self, value: &str, except_key: Option<&str>) -> (r: Option<String>)
        ensures
            match r {
                Some(k) => matches_search(self@, k@, value@, key_view(except_key)),
                None => forall|k: Seq<char>|
                    !#[trigger] matches_search(self@, k, value@, key_view(except_key)),
            },
    {
        proof {
            use_type_invariant(self);
        }
        let ghost p = pairs_of(self.entries@);
        let ghost excluded = key_view(except_key);
        let wanted = String::from_str(value);
        let excluded_key = match except_key {
            Some(e) => Some(String::from_str(e)),
            None => None,
        };
        let mut i: usize = 0;
        while i < self.entries.len()
            invariant
                p == pairs_of(self.entries@),
                keys_unique(p),
                wanted@ == value@,
                excluded == key_view(except_key),
                match excluded_key {
                    Some(e) => excluded == Some(e@),
                    None => excluded == None::<Seq<char>>,
                },
                0 <= i <= self.entries@.len(),
                forall|j: int|
                    0 <= j < i ==> !(#[trigger] p[j].1 == value@ && excluded != Some(p[j].0)),
            decreases self.entries@.len() - i,
        {
            let is_excluded = match &excluded_key {
                Some(e) => self.entries[i].0 == *e,
                None => false,
            };
            if self.entries[i].1 == wanted && !is_excluded {
                proof {
                    lemma_value_at(p, i as int);
                }
                return Some(self.entries[i].0.clone());
            }
            i = i + 1;
        }
        assert forall|k: Seq<char>| !#[trigger] matches_search(self@, k, value@, excluded) by {
            if self@.contains_key(k) {
                let j = choose|j: int| 0 <= j < p.len() && #[trigger] p[j].0 == k;
                lemma_value_at(p, j);
            }
        }
        None
    }
}

impl Default for Store {
    fn default() -> (s: Self)
        ensures
            s@ == Map::<Seq<char>, Seq<char>>::empty(),
    {
        Store::new()
    }
}

/// Whether `answer` answers a query of the extensions on `table`: `get`
/// with a key gives the value stored under it; `find` with a value gives a
/// key that holds it, other than `second` when that is given, or nothing
/// when no key does; any other query gives nothing.
pub open spec fn query_answered(
    table: Map<Seq<char>, Seq<char>>,
    request: Seq<char>,
    first: Option<Seq<char>>,
    second: Option<Seq<char>>,
    answer: Option<Seq<char>>,
) -> bool {
    if request == "get"@ && first is Some {
        answer == lookup(table, first->Some_0)
    } else if request == "find"@ && first is Some {
        match answer {
            Some(k) => matches_search(table, k, first->Some_0, second),
            None => forall|k: Seq<char>| !#[trigger] matches_search(table, k, first->Some_0, second),
        }
    } else {
        answer is None
    }
}

/// The text of an optional string.
pub open spec fn option_view(s: Option<String>) -> Option<Seq<char>> {
    match s {
        Some(t) => Some(t@),
        None => None,
    }
}

impl Store {
    /// Answers a query of the extensions, given as the arguments of the
    /// Lua call: the request (`get` or `find`), then a key for `get`, or a
    /// value and an optional key to leave out for `find`.
    pub fn answer_query(&self, query: (String, Option<String>, Option<String>)) -> (r: Option<
        String,
    >)
        ensures
            query_answered(self@, query.0@, option_view(query.1), option_view(query.2), option_view(r)),
    {
        let (request, first, second) = query;
        let first = match first {
            Some(f) => f,
            None => {
                return None;
            },
        };
        if request == String::from_str("get") {
            self.get(first.as_str())
        } else if request == String::from_str("find") {
            proof {
                reveal_strlit("get");
                reveal_strlit("find");
                assert("get"@ != "find"@) by {
                    assert("get"@[0] != "find"@[0]);
                }
            }
            match &second {
                Some(e) => self.find_key_by_value(first.as_str(), Some(e.as_str())),
                None => self.find_key_by_value(first.as_str(), None),
            }
        } else {
            None
        }
    }
}

/// Law: a read after a write gives back what was written.
pub proof fn law_get_after_insert(
    table: Map<Seq<char>, Seq<char>>,
    key: Seq<char>,
    value: Seq<char>,
)
    ensures
        lookup(table.insert(key, value), key) == Some(value),
{
}

/// Law: a write leaves every other key as it was.
pub proof fn law_insert_keeps_other_keys(
    table: Map<Seq<char>, Seq<char>>,
    key: Seq<char>,
    value: Seq<char>,
    other: Seq<char>,
)
    requires
        other != key,
    ensures
        lookup(table.insert(key, value), other) == lookup(table, other),
{
}

/// Law: a second write of a key replaces the first.
pub proof fn law_insert_overwrites(
    table: Map<Seq<char>, Seq<char>>,
    key: Seq<char>,
    first: Seq<char>,
    second: Seq<char>,
)
    ensures
        table.insert(key, first).insert(key, second) == table.insert(key, second),
{
    assert(table.insert(key, first).insert(key, second) =~= table.insert(key, second));
}

} // verus!
