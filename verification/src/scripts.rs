//! Which files of the extensions directory are scripts, and the order in
//! which they load.

use vstd::prelude::*;

use crate::text::chars_of;

verus! {

/// Whether a file named `name` has the extension `lua`, in the sense of
/// `Path::extension`: the text after the last dot is `lua`, and the dot is
/// not the first character of the name.
pub open spec fn has_lua_extension(name: Seq<char>) -> bool {
    name.len() > 4 && name.subrange(name.len() - 4, name.len() as int) == seq!['.', 'l', 'u', 'a']
}

/// Lexicographic order of names, character by character by code point,
/// which is the order of their UTF-8 bytes.
pub open spec fn name_less(a: Seq<char>, b: Seq<char>) -> bool
    decreases a.len(),
{
    if b.len() == 0 {
        false
    } else if a.len() == 0 {
        true
    } else if a[0] != b[0] {
        (a[0] as u32) < (b[0] as u32)
    } else {
        name_less(a.drop_first(), b.drop_first())
    }
}

/// Whether the file at `i` loads before the file at `j`: by name, then by
/// position in the listing.
pub open spec fn comes_before(names: Seq<Seq<char>>, i: int, j: int) -> bool {
    name_less(names[i], names[j]) || (names[i] == names[j] && i < j)
}

/// `order` lists each file with the extension `lua` exactly once, and no
/// other file, in load order.
pub open spec fn is_script_order(names: Seq<Seq<char>>, order: Seq<usize>) -> bool {
    &&& order.no_duplicates()
    &&& forall|k: int|
        0 <= k < order.len() ==> #[trigger] order[k] < names.len() && has_lua_extension(
            names[order[k] as int],
        )
    &&& forall|i: int|
        0 <= i < names.len() && has_lua_extension(#[trigger] names[i]) ==> order.contains(
            i as usize,
        )
    &&& forall|a: int, b: int|
        0 <= a < b < order.len() ==> comes_before(names, #[trigger] order[a] as int, #[trigger] order[b] as int)
}

/// The names as character sequences.
pub open spec fn name_views(names: Seq<String>) -> Seq<Seq<char>> {
    names.map_values(|n: String| n@)
}

proof fn lemma_less_irreflexive(a: Seq<char>)
    ensures
        !name_less(a, a),
    decreases a.len(),
{
    if a.len() > 0 {
        lemma_less_irreflexive(a.drop_first());
    }
}

proof fn lemma_less_transitive(a: Seq<char>, b: Seq<char>, c: Seq<char>)
    requires
        name_less(a, b),
        name_less(b, c),
    ensures
        name_less(a, c),
    decreases a.len(),
{
    if a.len() > 0 && b.len() > 0 && c.len() > 0 && a[0] == b[0] && b[0] == c[0] {
        lemma_less_transitive(a.drop_first(), b.drop_first(), c.drop_first());
    }
}

proof fn lemma_code_points_differ(x: char, y: char)
    requires
        x != y,
    ensures
        (x as u32) != (y as u32),
{
}

proof fn lemma_less_total(a: Seq<char>, b: Seq<char>)
    requires
        !name_less(a, b),
        a != b,
    ensures
        name_less(b, a),
    decreases a.len(),
{
    if a.len() == 0 {
        assert(b.len() == 0);
        assert(a =~= b);
    } else if b.len() == 0 {
    } else if a[0] != b[0] {
        lemma_code_points_differ(a[0], b[0]);
    } else {
        if a.drop_first() == b.drop_first() {
            assert(a.drop_first().len() == b.drop_first().len());
            assert(a =~= b) by {
                assert forall|k: int| 0 <= k < a.len() implies a[k] == b[k] by {
                    if k > 0 {
                        assert(a[k] == a.drop_first()[k - 1]);
                        assert(b[k] == b.drop_first()[k - 1]);
                    }
                }
            }
        }
        lemma_less_total(a.drop_first(), b.drop_first());
    }
}

proof fn lemma_less_skip(a: Seq<char>, b: Seq<char>, i: int)
    requires
        0 <= i <= a.len(),
        i <= b.len(),
        a.take(i) == b.take(i),
    ensures
        name_less(a, b) == name_less(a.skip(i), b.skip(i)),
    decreases i,
{
    if i > 0 {
        assert(a[0] == a.take(i)[0]);
        assert(b[0] == b.take(i)[0]);
        assert(a.drop_first().take(i - 1) =~= a.take(i).drop_first());
        assert(b.drop_first().take(i - 1) =~= b.take(i).drop_first());
        lemma_less_skip(a.drop_first(), b.drop_first(), i - 1);
        assert(a.drop_first().skip(i - 1) =~= a.skip(i));
        assert(b.drop_first().skip(i - 1) =~= b.skip(i));
    } else {
        assert(a.skip(0) =~= a);
        assert(b.skip(0) =~= b);
    }
}

/// Whether `a` comes before `b` in `name_less` order.
fn chars_less(a: &Vec<char>, b: &Vec<char>) -> (r: bool)
    ensures
        r == name_less(a@, b@),
{
    let mut i: usize = 0;
    while i < a.len() && i < b.len() && a[i] == b[i]
        invariant
            i <= a@.len(),
            i <= b@.len(),
            a@.take(i as int) == b@.take(i as int),
        decreases a@.len() - i,
    {
        assert(a@.take(i + 1) =~= a@.take(i as int).push(a@[i as int]));
        assert(b@.take(i + 1) =~= b@.take(i as int).push(b@[i as int]));
        i = i + 1;
    }
    proof {
        lemma_less_skip(a@, b@, i as int);
    }
    if i == b.len() {
        false
    } else if i == a.len() {
        true
    } else {
        assert(a@.skip(i as int)[0] == a@[i as int]);
        assert(b@.skip(i as int)[0] == b@[i as int]);
        (a[i] as u32) < (b[i] as u32)
    }
}

fn is_lua_name(name: &Vec<char>) -> (r: bool)
    ensures
        r == has_lua_extension(name@),
{
    let n = name.len();
    if n <= 4 {
        return false;
    }
    let r = name[n - 4] == '.' && name[n - 3] == 'l' && name[n - 2] == 'u' && name[n - 1] == 'a';
    proof {
        let tail = name@.subrange(n - 4, n as int);
        if r {
            assert(tail =~= seq!['.', 'l', 'u', 'a']);
        } else {
            if tail == seq!['.', 'l', 'u', 'a'] {
                assert(tail[0] == name@[n - 4]);
                assert(tail[1] == name@[n - 3]);
                assert(tail[2] == name@[n - 2]);
                assert(tail[3] == name@[n - 1]);
            }
        }
    }
    r
}


proof fn lemma_insert_keeps_order(
    views: Seq<Seq<char>>,
    old_order: Seq<usize>,
    order: Seq<usize>,
    p: int,
    i: usize,
)
    requires
        i < views.len(),
        has_lua_extension(views[i as int]),
        0 <= p <= old_order.len(),
        order == old_order.insert(p, i),
        old_order.no_duplicates(),
        forall|k: int|
            0 <= k < old_order.len() ==> #[trigger] old_order[k] < i && has_lua_extension(
                views[old_order[k] as int],
            ),
        forall|x: int|
            0 <= x < i && has_lua_extension(#[trigger] views[x]) ==> old_order.contains(x as usize),
        forall|a: int, b: int|
            0 <= a < b < old_order.len() ==> comes_before(
                views,
                #[trigger] old_order[a] as int,
                #[trigger] old_order[b] as int,
            ),
        forall|q: int| 0 <= q < p ==> !name_less(views[i as int], views[#[trigger] old_order[q] as int]),
        p < old_order.len() ==> name_less(views[i as int], views[old_order[p] as int]),
    ensures
        order.no_duplicates(),
        forall|k: int|
            0 <= k < order.len() ==> #[trigger] order[k] < i + 1 && has_lua_extension(
                views[order[k] as int],
            ),
        forall|x: int|
            0 <= x < i + 1 && has_lua_extension(#[trigger] views[x]) ==> order.contains(x as usize),
        forall|a: int, b: int|
            0 <= a < b < order.len() ==> comes_before(
                views,
                #[trigger] order[a] as int,
                #[trigger] order[b] as int,
            ),
{
    let ni = views[i as int];
    assert(order.len() == old_order.len() + 1);
    assert(order[p] == i);
    assert forall|k: int| 0 <= k < order.len() implies #[trigger] order[k] < i + 1
        && has_lua_extension(views[order[k] as int]) by {
        if k < p {
            assert(order[k] == old_order[k]);
        } else if k > p {
            assert(order[k] == old_order[k - 1]);
        } else {
            assert(order[k] == i);
        }
    }
    assert forall|a: int, b: int| 0 <= a < b < order.len() && order[a] == order[b] implies false by {
        if a == p {
            assert(order[b] == old_order[b - 1]);
            assert(old_order[b - 1] < i);
        } else if b == p {
            assert(order[a] == old_order[a]);
            assert(old_order[a] < i);
        } else {
            let a0 = if a < p { a } else { a - 1 };
            let b0 = if b < p { b } else { b - 1 };
            assert(order[a] == old_order[a0]);
            assert(order[b] == old_order[b0]);
        }
    }
    assert(order.no_duplicates());
    assert forall|x: int| 0 <= x < i + 1 && has_lua_extension(#[trigger] views[x]) implies order.contains(
        x as usize,
    ) by {
        if x == i {
            assert(order[p] == i);
        } else {
            assert(old_order.contains(x as usize));
            let k = choose|k: int| 0 <= k < old_order.len() && old_order[k] == x as usize;
            if k < p {
                assert(order[k] == old_order[k]);
            } else {
                assert(order[k + 1] == old_order[k]);
            }
        }
    }
    assert forall|a: int, b: int| 0 <= a < b < order.len() implies comes_before(
        views,
        #[trigger] order[a] as int,
        #[trigger] order[b] as int,
    ) by {
        if a == p {
            // the new script against a later one
            let y = old_order[b - 1] as int;
            assert(order[b] == old_order[b - 1]);
            assert(name_less(ni, views[old_order[p] as int]));
            if b - 1 > p {
                assert(comes_before(views, old_order[p] as int, y));
                if name_less(views[old_order[p] as int], views[y]) {
                    lemma_less_transitive(ni, views[old_order[p] as int], views[y]);
                }
            }
        } else if b == p {
            // an earlier one against the new script
            let x = old_order[a] as int;
            assert(order[a] == old_order[a]);
            assert(!name_less(ni, views[x]));
            if views[x] != ni {
                lemma_less_total(ni, views[x]);
            }
        } else {
            let a0 = if a < p { a } else { a - 1 };
            let b0 = if b < p { b } else { b - 1 };
            assert(order[a] == old_order[a0]);
            assert(order[b] == old_order[b0]);
        }
    }
}

/// The positions of the files of a directory listing that are extension
/// scripts, in the order in which they load.
pub fn script_order(names: &Vec<String>) -> (order: Vec<usize>)
    ensures
        is_script_order(name_views(names@), order@),
{
    let ghost views = name_views(names@);
    let mut chars: Vec<Vec<char>> = Vec::new();
    let mut j: usize = 0;
    while j < names.len()
        invariant
            views == name_views(names@),
            j <= names@.len(),
            chars@.len() == j,
            forall|k: int| 0 <= k < j ==> (#[trigger] chars@[k])@ == views[k],
        decreases names@.len() - j,
    {
        chars.push(chars_of(names[j].as_str()));
        j = j + 1;
    }
    let mut order: Vec<usize> = Vec::new();
    let mut i: usize = 0;
    while i < chars.len()
        invariant
            views == name_views(names@),
            chars@.len() == views.len(),
            forall|k: int| 0 <= k < chars@.len() ==> (#[trigger] chars@[k])@ == views[k],
            i <= chars@.len(),
            order@.no_duplicates(),
            forall|k: int|
                0 <= k < order@.len() ==> #[trigger] order@[k] < i && has_lua_extension(
                    views[order@[k] as int],
                ),
            forall|x: int|
                0 <= x < i && has_lua_extension(#[trigger] views[x]) ==> order@.contains(
                    x as usize,
                ),
            forall|a: int, b: int|
                0 <= a < b < order@.len() ==> comes_before(
                    views,
                    #[trigger] order@[a] as int,
                    #[trigger] order@[b] as int,
                ),
        decreases chars@.len() - i,
    {
        if is_lua_name(&chars[i]) {
            let mut p: usize = 0;
            while p < order.len() && !chars_less(&chars[i], &chars[order[p]])
                invariant
                    chars@.len() == views.len(),
                    forall|k: int| 0 <= k < chars@.len() ==> (#[trigger] chars@[k])@ == views[k],
                    i < chars@.len(),
                    p <= order@.len(),
                    forall|k: int| 0 <= k < order@.len() ==> #[trigger] order@[k] < i,
                    forall|q: int| 0 <= q < p ==> !name_less(views[i as int], views[#[trigger] order@[q] as int]),
                decreases order@.len() - p,
            {
                p = p + 1;
            }
            let ghost old_order = order@;
            order.insert(p, i);
            proof {
                lemma_insert_keeps_order(views, old_order, order@, p as int, i);
            }
        }
        i = i + 1;
    }
    order
}

/// The names that `order` loads, in order.
pub open spec fn loaded_names(names: Seq<Seq<char>>, order: Seq<usize>) -> Seq<Seq<char>> {
    order.map_values(|k: usize| names[k as int])
}

/// Each name comes before the next in `name_less` order.
pub open spec fn strictly_sorted(s: Seq<Seq<char>>) -> bool {
    forall|i: int, j: int| 0 <= i < j < s.len() ==> name_less(#[trigger] s[i], #[trigger] s[j])
}

proof fn lemma_sorted_unique(a: Seq<Seq<char>>, b: Seq<Seq<char>>)
    requires
        strictly_sorted(a),
        strictly_sorted(b),
        forall|x: Seq<char>| a.contains(x) <==> b.contains(x),
    ensures
        a == b,
    decreases a.len(),
{
    if a.len() == 0 {
        if b.len() > 0 {
            assert(b.contains(b[0]));
        }
        assert(a =~= b);
    } else {
        assert(a.contains(a[0]));
        assert(b.len() > 0);
        assert(b.contains(b[0]));
        let k = choose|k: int| 0 <= k < b.len() && b[k] == a[0];
        let m = choose|m: int| 0 <= m < a.len() && a[m] == b[0];
        if k > 0 {
            assert(name_less(b[0], b[k]));
            if m > 0 {
                assert(name_less(a[0], a[m]));
                lemma_less_transitive(a[0], b[0], a[0]);
            }
            lemma_less_irreflexive(a[0]);
        }
        assert(a[0] == b[0]);
        let a1 = a.drop_first();
        let b1 = b.drop_first();
        assert forall|x: Seq<char>| a1.contains(x) <==> b1.contains(x) by {
            if a1.contains(x) {
                let i = choose|i: int| 0 <= i < a1.len() && a1[i] == x;
                assert(a[i + 1] == x);
                assert(name_less(a[0], a[i + 1]));
                lemma_less_irreflexive(a[0]);
                assert(b.contains(x));
                let j = choose|j: int| 0 <= j < b.len() && b[j] == x;
                assert(j != 0);
                assert(b1[j - 1] == x);
            }
            if b1.contains(x) {
                let i = choose|i: int| 0 <= i < b1.len() && b1[i] == x;
                assert(b[i + 1] == x);
                assert(name_less(b[0], b[i + 1]));
                lemma_less_irreflexive(b[0]);
                assert(a.contains(x));
                let j = choose|j: int| 0 <= j < a.len() && a[j] == x;
                assert(j != 0);
                assert(a1[j - 1] == x);
            }
        }
        lemma_sorted_unique(a1, b1);
        assert(a =~= seq![a[0]] + a1);
        assert(b =~= seq![b[0]] + b1);
    }
}

proof fn lemma_loaded_names(names: Seq<Seq<char>>, order: Seq<usize>)
    requires
        names.no_duplicates(),
        names.len() <= usize::MAX,
        is_script_order(names, order),
    ensures
        strictly_sorted(loaded_names(names, order)),
        forall|x: Seq<char>|
            loaded_names(names, order).contains(x) <==> (names.contains(x) && has_lua_extension(x)),
{
    let l = loaded_names(names, order);
    assert forall|i: int, j: int| 0 <= i < j < l.len() implies name_less(#[trigger] l[i], #[trigger] l[j]) by {
        assert(comes_before(names, order[i] as int, order[j] as int));
        assert(order[i] != order[j]);
        assert(order[i] < names.len() && has_lua_extension(names[order[i] as int]));
        assert(order[j] < names.len() && has_lua_extension(names[order[j] as int]));
        assert(names[order[i] as int] != names[order[j] as int]);
    }
    assert forall|x: Seq<char>| l.contains(x) <==> (names.contains(x) && has_lua_extension(x)) by {
        if l.contains(x) {
            let i = choose|i: int| 0 <= i < l.len() && l[i] == x;
            assert(order[i] < names.len() && has_lua_extension(names[order[i] as int]));
            assert(names[order[i] as int] == x);
        }
        if names.contains(x) && has_lua_extension(x) {
            let i = choose|i: int| 0 <= i < names.len() && names[i] == x;
            assert(order.contains(i as usize));
            let k = choose|k: int| 0 <= k < order.len() && order[k] == i as usize;
            assert(l[k] == x);
        }
    }
}

/// Law: the scripts that load, and their order, do not depend on the order
/// in which the directory lists its files.
pub proof fn law_load_order_ignores_listing_order(
    names: Seq<Seq<char>>,
    order: Seq<usize>,
    relisted: Seq<Seq<char>>,
    reorder: Seq<usize>,
)
    requires
        names.no_duplicates(),
        relisted.no_duplicates(),
        names.len() <= usize::MAX,
        relisted.len() <= usize::MAX,
        names.to_set() == relisted.to_set(),
        is_script_order(names, order),
        is_script_order(relisted, reorder),
    ensures
        loaded_names(names, order) == loaded_names(relisted, reorder),
{
    lemma_loaded_names(names, order);
    lemma_loaded_names(relisted, reorder);
    assert forall|x: Seq<char>| names.contains(x) <==> relisted.contains(x) by {
        assert(names.to_set().contains(x) == names.contains(x));
        assert(relisted.to_set().contains(x) == relisted.contains(x));
    }
    lemma_sorted_unique(loaded_names(names, order), loaded_names(relisted, reorder));
}

/// Law: every file named by a non-empty stem followed by `.lua` loads,
/// whatever the characters of the stem.
pub proof fn law_every_lua_file_loads(
    names: Seq<Seq<char>>,
    order: Seq<usize>,
    i: int,
    stem: Seq<char>,
)
    requires
        is_script_order(names, order),
        0 <= i < names.len(),
        stem.len() > 0,
        names[i] == stem + seq!['.', 'l', 'u', 'a'],
    ensures
        order.contains(i as usize),
{
    let name = names[i];
    assert(name.subrange(name.len() - 4, name.len() as int) =~= seq!['.', 'l', 'u', 'a']);
    assert(has_lua_extension(names[i]));
}

/// Law: every file that loads is named by a non-empty stem followed by
/// `.lua`.
pub proof fn law_only_lua_files_load(names: Seq<Seq<char>>, order: Seq<usize>, k: int)
    requires
        is_script_order(names, order),
        0 <= k < order.len(),
    ensures
        order[k] < names.len(),
        exists|stem: Seq<char>|
            stem.len() > 0 && names[order[k] as int] == stem + seq!['.', 'l', 'u', 'a'],
{
    let name = names[order[k] as int];
    assert(has_lua_extension(name));
    let stem = name.take(name.len() - 4);
    assert(name =~= stem + name.subrange(name.len() - 4, name.len() as int));
    assert(name == stem + seq!['.', 'l', 'u', 'a']);
}

} // verus!
