//! The line protocol: a line of input becomes an empty line, a command, or
//! the reason it was refused.

use vstd::prelude::*;

use crate::text::{
    chars_of, find_in, first_in, has_white_space, in_class, is_white_space, is_word_char,
    law_word_chars_are_not_white_space, lemma_first_in_is,
    lemma_first_in_props, lemma_strip_end_is, lemma_strip_end_props, range_equals, strip_end,
    strip_end_in, strip_line_ending, trim, trim_start, CharClass,
};

verus! {

/// A command of the store.
#[derive(Debug, Clone, PartialEq, Eq)]
pub enum Command {
    Add { key: String, value: String },
    Get { key: String },
    Exit,
}

/// What a line of input holds.
#[derive(Debug, Clone, PartialEq, Eq)]
pub enum ParsedLine {
    Empty,
    Command(Command),
}

/// The mathematical value of a `Command`.
pub enum CommandView {
    Add { key: Seq<char>, value: Seq<char> },
    Get { key: Seq<char> },
    Exit,
}

/// The mathematical value of a `ParsedLine`.
pub enum ParsedLineView {
    Empty,
    Command(CommandView),
}

impl View for Command {
    type V = CommandView;

    open spec fn view(&self) -> CommandView {
        match self {
            Command::Add { key, value } => CommandView::Add { key: key@, value: value@ },
            Command::Get { key } => CommandView::Get { key: key@ },
            Command::Exit => CommandView::Exit,
        }
    }
}

impl View for ParsedLine {
    type V = ParsedLineView;

    open spec fn view(&self) -> ParsedLineView {
        match self {
            ParsedLine::Empty => ParsedLineView::Empty,
            ParsedLine::Command(command) => ParsedLineView::Command(command@),
        }
    }
}

/// The first word of a line and, when a white-space character follows it,
/// the text after that single character.
pub open spec fn spec_split_first_token(line: Seq<char>) -> (Seq<char>, Option<Seq<char>>) {
    let i = first_in(line, CharClass::Space);
    if i < line.len() {
        (line.take(i as int), Some(line.skip(i as int + 1)))
    } else {
        (line, None)
    }
}

/// `ADD <key> <value>`: the key ends at the first white space after the
/// leading white space; the value is everything after that one character.
pub open spec fn spec_parse_add(arguments: Option<Seq<char>>) -> Result<CommandView, Seq<char>> {
    let text = match arguments {
        Some(a) => trim_start(a),
        None => Seq::empty(),
    };
    if text.len() == 0 {
        Err("comando ADD incompleto: informe chave e valor"@)
    } else {
        let i = first_in(text, CharClass::Space);
        if i == text.len() {
            Err("comando ADD incompleto: informe o valor"@)
        } else {
            let key = text.take(i as int);
            let value = text.skip(i as int + 1);
            if key.len() == 0 {
                Err("comando ADD incompleto: informe a chave"@)
            } else if value.len() == 0 {
                Err("comando ADD incompleto: informe o valor"@)
            } else {
                Ok(CommandView::Add { key, value })
            }
        }
    }
}

/// `GET <key>`: exactly one word after the verb, white space around it ignored.
pub open spec fn spec_parse_get(arguments: Option<Seq<char>>) -> Result<CommandView, Seq<char>> {
    let key = match arguments {
        Some(a) => trim(a),
        None => Seq::empty(),
    };
    if key.len() == 0 {
        Err("comando GET incompleto: informe a chave"@)
    } else if has_white_space(key) {
        Err("GET recebe somente uma chave"@)
    } else {
        Ok(CommandView::Get { key })
    }
}

pub open spec fn as_parsed_line(r: Result<CommandView, Seq<char>>) -> Result<ParsedLineView, Seq<char>> {
    match r {
        Ok(command) => Ok(ParsedLineView::Command(command)),
        Err(reason) => Err(reason),
    }
}

/// What a line of input means. Trailing line breaks are ignored; a line of
/// white space only is empty; verbs are case-sensitive.
pub open spec fn spec_parse(line: Seq<char>) -> Result<ParsedLineView, Seq<char>> {
    let line = strip_line_ending(line);
    if trim(line).len() == 0 {
        Ok(ParsedLineView::Empty)
    } else {
        let (verb, arguments) = spec_split_first_token(line);
        if verb == "ADD"@ {
            as_parsed_line(spec_parse_add(arguments))
        } else if verb == "GET"@ {
            as_parsed_line(spec_parse_get(arguments))
        } else if verb == "EXIT"@ {
            match arguments {
                Some(a) if trim(a).len() > 0 => Err("EXIT não recebe argumentos"@),
                _ => Ok(ParsedLineView::Command(CommandView::Exit)),
            }
        } else {
            Err("comando desconhecido: "@ + verb)
        }
    }
}

/// Whether the executable result `r` is the mathematical result `s`.
pub open spec fn result_is<T: View>(r: Result<T, String>, s: Result<T::V, Seq<char>>) -> bool {
    match r {
        Ok(v) => s == Ok::<T::V, Seq<char>>(v@),
        Err(e) => s == Err::<T::V, Seq<char>>(e@),
    }
}

proof fn lemma_trim_empty(s: Seq<char>)
    ensures
        (trim(s).len() == 0) <==> (first_in(s, CharClass::NonSpace) == s.len()),
{
    lemma_first_in_props(s, CharClass::NonSpace);
    let k = first_in(s, CharClass::NonSpace);
    let t = s.skip(k as int);
    lemma_strip_end_props(t, CharClass::Space);
    if k < s.len() {
        assert(t[0] == s[k as int]);
    }
}

proof fn lemma_has_white_space(s: Seq<char>)
    ensures
        has_white_space(s) <==> (first_in(s, CharClass::Space) < s.len()),
{
    lemma_first_in_props(s, CharClass::Space);
    if has_white_space(s) {
        let i = choose|i: int| 0 <= i < s.len() && crate::text::is_white_space(#[trigger] s[i]);
        assert(crate::text::in_class(s[i], CharClass::Space));
    }
}

/// Start of `v[lo..hi]` once its leading white space is removed.
fn trim_start_range(v: &Vec<char>, lo: usize, hi: usize) -> (a: usize)
    requires
        lo <= hi <= v@.len(),
    ensures
        lo <= a <= hi,
        v@.subrange(a as int, hi as int) == trim_start(v@.subrange(lo as int, hi as int)),
{
    let a = find_in(v, lo, hi, CharClass::NonSpace);
    assert(v@.subrange(a as int, hi as int) =~= trim_start(v@.subrange(lo as int, hi as int)));
    a
}

/// Bounds of `v[lo..hi]` once white space is removed from both ends.
fn trim_range(v: &Vec<char>, lo: usize, hi: usize) -> (r: (usize, usize))
    requires
        lo <= hi <= v@.len(),
    ensures
        lo <= r.0 <= r.1 <= hi,
        v@.subrange(r.0 as int, r.1 as int) == trim(v@.subrange(lo as int, hi as int)),
{
    let a = trim_start_range(v, lo, hi);
    let b = strip_end_in(v, a, hi, CharClass::Space);
    assert(v@.subrange(a as int, b as int) =~= v@.subrange(a as int, hi as int).take(
        strip_end(v@.subrange(a as int, hi as int), CharClass::Space) as int,
    ));
    (a, b)
}

/// The text of `line` between `lo` and `hi`, as a `String`.
fn text_between(line: &str, v: &Vec<char>, lo: usize, hi: usize) -> (s: String)
    requires
        v@ == line@,
        lo <= hi <= v@.len(),
    ensures
        s@ == v@.subrange(lo as int, hi as int),
{
    String::from_str(line.substring_char(lo, hi))
}

/// Parses the arguments of `ADD`, which start at `start` (when present)
/// and end at `end`.
fn parse_add(line: &str, v: &Vec<char>, start: Option<usize>, end: usize) -> (r: Result<
    Command,
    String,
>)
    requires
        v@ == line@,
        end <= v@.len(),
        start matches Some(s) ==> s <= end,
    ensures
        result_is(
            r,
            spec_parse_add(
                match start {
                    Some(s) => Some(v@.subrange(s as int, end as int)),
                    None => None,
                },
            ),
        ),
{
    let ghost arguments = match start {
        Some(s) => Some(v@.subrange(s as int, end as int)),
        None => None,
    };
    let lo = match start {
        Some(s) => trim_start_range(v, s, end),
        None => end,
    };
    let ghost text = v@.subrange(lo as int, end as int);
    assert(text == match arguments {
        Some(a) => trim_start(a),
        None => Seq::<char>::empty(),
    });
    if lo == end {
        return Err(String::from_str("comando ADD incompleto: informe chave e valor"));
    }
    let sep = find_in(v, lo, end, CharClass::Space);
    if sep == end {
        return Err(String::from_str("comando ADD incompleto: informe o valor"));
    }
    assert(text.take(sep - lo) =~= v@.subrange(lo as int, sep as int));
    assert(text.skip(sep - lo + 1) =~= v@.subrange(sep + 1, end as int));
    if sep == lo {
        return Err(String::from_str("comando ADD incompleto: informe a chave"));
    }
    if sep + 1 == end {
        return Err(String::from_str("comando ADD incompleto: informe o valor"));
    }
    let key = text_between(line, v, lo, sep);
    let value = text_between(line, v, sep + 1, end);
    Ok(Command::Add { key, value })
}

/// Parses the arguments of `GET`.
fn parse_get(line: &str, v: &Vec<char>, start: Option<usize>, end: usize) -> (r: Result<
    Command,
    String,
>)
    requires
        v@ == line@,
        end <= v@.len(),
        start matches Some(s) ==> s <= end,
    ensures
        result_is(
            r,
            spec_parse_get(
                match start {
                    Some(s) => Some(v@.subrange(s as int, end as int)),
                    None => None,
                },
            ),
        ),
{
    let (lo, hi) = match start {
        Some(s) => trim_range(v, s, end),
        None => (end, end),
    };
    if lo == hi {
        return Err(String::from_str("comando GET incompleto: informe a chave"));
    }
    proof {
        lemma_has_white_space(v@.subrange(lo as int, hi as int));
    }
    if find_in(v, lo, hi, CharClass::Space) < hi {
        return Err(String::from_str("GET recebe somente uma chave"));
    }
    let key = text_between(line, v, lo, hi);
    Ok(Command::Get { key })
}

/// Splits `v[0..end]` at its first white-space character: where the verb
/// ends, and where the arguments start when that character is there.
fn split_first_token(v: &Vec<char>, end: usize) -> (r: (usize, Option<usize>))
    requires
        end <= v@.len(),
    ensures
        r.0 <= end,
        r.1 matches Some(s) ==> s == r.0 + 1 && s <= end,
        spec_split_first_token(v@.subrange(0, end as int)) == (
            v@.subrange(0, r.0 as int),
            match r.1 {
                Some(s) => Some(v@.subrange(s as int, end as int)),
                None => None,
            },
        ),
{
    let ghost l = v@.subrange(0, end as int);
    let sep = find_in(v, 0, end, CharClass::Space);
    assert(l.take(sep as int) =~= v@.subrange(0, sep as int));
    if sep < end {
        assert(l.skip(sep + 1) =~= v@.subrange(sep + 1, end as int));
        (sep, Some(sep + 1))
    } else {
        assert(l =~= v@.subrange(0, sep as int));
        (sep, None)
    }
}

/// Reads one line of input.
pub fn parse(line: &str) -> (r: Result<ParsedLine, String>)
    ensures
        result_is(r, spec_parse(line@)),
{
    let v = chars_of(line);
    assert(v@.subrange(0, v@.len() as int) =~= line@);
    let end = strip_end_in(&v, 0, v.len(), CharClass::LineBreak);
    let ghost l = strip_line_ending(line@);
    assert(l =~= v@.subrange(0, end as int));
    proof {
        lemma_trim_empty(l);
    }
    if find_in(&v, 0, end, CharClass::NonSpace) == end {
        return Ok(ParsedLine::Empty);
    }
    let (sep, arguments) = split_first_token(&v, end);
    if range_equals(&v, 0, sep, "ADD") {
        match parse_add(line, &v, arguments, end) {
            Ok(command) => Ok(ParsedLine::Command(command)),
            Err(reason) => Err(reason),
        }
    } else if range_equals(&v, 0, sep, "GET") {
        match parse_get(line, &v, arguments, end) {
            Ok(command) => Ok(ParsedLine::Command(command)),
            Err(reason) => Err(reason),
        }
    } else if range_equals(&v, 0, sep, "EXIT") {
        match arguments {
            Some(s) => {
                let (lo, hi) = trim_range(&v, s, end);
                if lo < hi {
                    return Err(String::from_str("EXIT não recebe argumentos"));
                }
            },
            None => {},
        }
        Ok(ParsedLine::Command(Command::Exit))
    } else {
        let mut reason = String::from_str("comando desconhecido: ");
        reason.append(line.substring_char(0, sep));
        Err(reason)
    }
}

proof fn lemma_strip_line_ending_push(s: Seq<char>, c: char)
    requires
        c == '\r' || c == '\n',
    ensures
        strip_line_ending(s.push(c)) == strip_line_ending(s),
{
    let t = s.push(c);
    assert(t.drop_last() =~= s);
    assert(strip_end(t, CharClass::LineBreak) == strip_end(s, CharClass::LineBreak));
    lemma_strip_end_props(s, CharClass::LineBreak);
    assert(t.take(strip_end(s, CharClass::LineBreak) as int) =~= s.take(
        strip_end(s, CharClass::LineBreak) as int,
    ));
}

/// Law: a line means the same with or without a final line feed or
/// carriage return-line feed.
pub proof fn law_parse_ignores_line_ending(line: Seq<char>)
    ensures
        spec_parse(line.push('\n')) == spec_parse(line),
        spec_parse(line.push('\r').push('\n')) == spec_parse(line),
{
    lemma_strip_line_ending_push(line, '\n');
    lemma_strip_line_ending_push(line.push('\r'), '\n');
    lemma_strip_line_ending_push(line, '\r');
}

proof fn lemma_no_line_break_end(s: Seq<char>)
    requires
        s.len() > 0,
        !in_class(s.last(), CharClass::LineBreak),
    ensures
        strip_line_ending(s) == s,
{
    assert(s.take(s.len() as int) =~= s);
}

proof fn lemma_first_space_after_word(word: Seq<char>, rest: Seq<char>)
    requires
        !has_white_space(word),
    ensures
        first_in(word + seq![' '] + rest, CharClass::Space) == word.len(),
{
    let s = word + seq![' '] + rest;
    assert forall|j: int| 0 <= j < word.len() implies !in_class(#[trigger] s[j], CharClass::Space) by {
        assert(s[j] == word[j]);
        if is_white_space(word[j]) {
            assert(has_white_space(word));
        }
    }
    assert(s[word.len() as int] == ' ');
    lemma_first_in_is(s, CharClass::Space, word.len() as int);
}

proof fn lemma_starts_visible(s: Seq<char>)
    requires
        s.len() > 0,
        !is_white_space(s[0]),
    ensures
        trim_start(s) == s,
        trim(s).len() > 0,
{
    lemma_first_in_is(s, CharClass::NonSpace, 0);
    assert(s.skip(0) =~= s);
    lemma_trim_empty(s);
}

/// Law: `ADD <key> <value>` stores `value` under `key`, spaces inside the
/// value included, for a key without white space and a value that does
/// not end in a line break.
pub proof fn law_add_line_round_trip(key: Seq<char>, value: Seq<char>)
    requires
        key.len() > 0,
        !has_white_space(key),
        value.len() > 0,
        !in_class(value.last(), CharClass::LineBreak),
    ensures
        spec_parse(seq!['A', 'D', 'D', ' '] + key + seq![' '] + value) == Ok::<
            ParsedLineView,
            Seq<char>,
        >(ParsedLineView::Command(CommandView::Add { key, value })),
{
    reveal_strlit("ADD");
    let verb = seq!['A', 'D', 'D'];
    let args = key + seq![' '] + value;
    let line = verb + seq![' '] + args;
    assert(line =~= seq!['A', 'D', 'D', ' '] + key + seq![' '] + value);
    assert(line.last() == value.last());
    lemma_no_line_break_end(line);
    assert(!has_white_space(verb)) by {
        assert forall|i: int| 0 <= i < verb.len() implies !is_white_space(#[trigger] verb[i]) by {}
    }
    lemma_first_space_after_word(verb, args);
    assert(line.take(3) =~= verb);
    assert(line.skip(4) =~= args);
    assert(!is_white_space(line[0]));
    lemma_starts_visible(line);
    assert(key[0] == args[0]);
    if is_white_space(key[0]) {
        assert(has_white_space(key));
    }
    lemma_starts_visible(args);
    lemma_first_space_after_word(key, value);
    assert(args.take(key.len() as int) =~= key);
    assert(args.skip(key.len() as int + 1) =~= value);
    assert(trim_start(args) == args);
    assert(spec_parse_add(Some(args)) == Ok::<CommandView, Seq<char>>(
        CommandView::Add { key, value },
    ));
    assert(strip_line_ending(line) == line);
    assert(spec_split_first_token(line) == (verb, Some(args)));
    assert(verb =~= "ADD"@);
    assert(spec_parse(line) == Ok::<ParsedLineView, Seq<char>>(
        ParsedLineView::Command(CommandView::Add { key, value }),
    ));
}

/// Law: `GET <key>` reads `key`, for a key without white space.
pub proof fn law_get_line_round_trip(key: Seq<char>)
    requires
        key.len() > 0,
        !has_white_space(key),
    ensures
        spec_parse(seq!['G', 'E', 'T', ' '] + key) == Ok::<ParsedLineView, Seq<char>>(
            ParsedLineView::Command(CommandView::Get { key }),
        ),
{
    reveal_strlit("ADD");
    reveal_strlit("GET");
    let verb = seq!['G', 'E', 'T'];
    let line = verb + seq![' '] + key;
    assert(line =~= seq!['G', 'E', 'T', ' '] + key);
    assert(line.last() == key.last());
    if in_class(key.last(), CharClass::LineBreak) {
        assert(has_white_space(key));
    }
    lemma_no_line_break_end(line);
    assert(!has_white_space(verb)) by {
        assert forall|i: int| 0 <= i < verb.len() implies !is_white_space(#[trigger] verb[i]) by {}
    }
    lemma_first_space_after_word(verb, key);
    assert(line.take(3) =~= verb);
    assert(line.skip(4) =~= key);
    assert(!is_white_space(line[0]));
    lemma_starts_visible(line);
    if is_white_space(key[0]) {
        assert(has_white_space(key));
    }
    lemma_starts_visible(key);
    lemma_strip_end_props(key, CharClass::Space);
    if strip_end(key, CharClass::Space) < key.len() {
        assert(is_white_space(key[key.len() - 1]));
        assert(has_white_space(key));
    }
    lemma_strip_end_is(key, CharClass::Space, key.len() as int);
    assert(key.take(key.len() as int) =~= key);
    assert(trim(key) == key);
    assert(spec_parse_get(Some(key)) == Ok::<CommandView, Seq<char>>(CommandView::Get { key }));
    assert(strip_line_ending(line) == line);
    assert(spec_split_first_token(line) == (verb, Some(key)));
    assert(verb =~= "GET"@);
    assert(verb.len() == "ADD"@.len());
    assert(verb != "ADD"@) by {
        assert(verb[0] != "ADD"@[0]);
    }
    assert(spec_parse(line) == Ok::<ParsedLineView, Seq<char>>(
        ParsedLineView::Command(CommandView::Get { key }),
    ));
}

/// Law: `EXIT` alone ends the session.
pub proof fn law_exit_line()
    ensures
        spec_parse(seq!['E', 'X', 'I', 'T']) == Ok::<ParsedLineView, Seq<char>>(
            ParsedLineView::Command(CommandView::Exit),
        ),
{
    reveal_strlit("ADD");
    reveal_strlit("GET");
    reveal_strlit("EXIT");
    let line = seq!['E', 'X', 'I', 'T'];
    lemma_no_line_break_end(line);
    assert(!is_white_space(line[0]));
    lemma_starts_visible(line);
    assert forall|j: int| 0 <= j < 4 implies !in_class(#[trigger] line[j], CharClass::Space) by {}
    lemma_first_in_is(line, CharClass::Space, 4);
    assert(strip_line_ending(line) == line);
    assert(spec_split_first_token(line) == (line, None::<Seq<char>>));
    assert(line =~= "EXIT"@);
    assert(line.len() != "ADD"@.len());
    assert(line.len() != "GET"@.len());
}

proof fn lemma_word_has_no_white_space(word: Seq<char>)
    requires
        forall|i: int| 0 <= i < word.len() ==> is_word_char(#[trigger] word[i]),
    ensures
        !has_white_space(word),
{
    assert forall|i: int| 0 <= i < word.len() implies !is_white_space(#[trigger] word[i]) by {
        law_word_chars_are_not_white_space(word[i]);
    }
}

/// Law: `ADD <key> <value>` stores `value` under `key` for every non-empty
/// key made of letters, digits and `_`, and every non-empty value that does
/// not end in a line break.
pub proof fn law_add_word_key_round_trip(key: Seq<char>, value: Seq<char>)
    requires
        key.len() > 0,
        forall|i: int| 0 <= i < key.len() ==> is_word_char(#[trigger] key[i]),
        value.len() > 0,
        value.last() != '\r',
        value.last() != '\n',
    ensures
        spec_parse(seq!['A', 'D', 'D', ' '] + key + seq![' '] + value) == Ok::<
            ParsedLineView,
            Seq<char>,
        >(ParsedLineView::Command(CommandView::Add { key, value })),
{
    lemma_word_has_no_white_space(key);
    law_add_line_round_trip(key, value);
}

/// Law: `GET <key>` reads `key` for every non-empty key made of letters,
/// digits and `_`.
pub proof fn law_get_word_key_round_trip(key: Seq<char>)
    requires
        key.len() > 0,
        forall|i: int| 0 <= i < key.len() ==> is_word_char(#[trigger] key[i]),
    ensures
        spec_parse(seq!['G', 'E', 'T', ' '] + key) == Ok::<ParsedLineView, Seq<char>>(
            ParsedLineView::Command(CommandView::Get { key }),
        ),
{
    lemma_word_has_no_white_space(key);
    law_get_line_round_trip(key);
}

/// Law: a line whose first word is not exactly `ADD`, `GET` or `EXIT`
/// (verbs are case-sensitive) is refused as an unknown command naming that
/// word, whatever follows it after a space.
pub proof fn law_unknown_verb_refused(verb: Seq<char>, rest: Seq<char>)
    requires
        verb.len() > 0,
        !has_white_space(verb),
        verb != "ADD"@,
        verb != "GET"@,
        verb != "EXIT"@,
        rest.len() == 0 || (rest[0] == ' ' && rest.last() != '\r' && rest.last() != '\n'),
    ensures
        spec_parse(verb + rest) == Err::<ParsedLineView, Seq<char>>(
            "comando desconhecido: "@ + verb,
        ),
{
    let line = verb + rest;
    assert(line[0] == verb[0]);
    if is_white_space(verb[0]) {
        assert(has_white_space(verb));
    }
    if rest.len() == 0 {
        assert(line =~= verb);
        if in_class(verb.last(), CharClass::LineBreak) {
            assert(has_white_space(verb));
        }
        lemma_no_line_break_end(line);
        assert forall|j: int| 0 <= j < verb.len() implies !in_class(#[trigger] line[j], CharClass::Space) by {
            if is_white_space(verb[j]) {
                assert(has_white_space(verb));
            }
        }
        lemma_first_in_is(line, CharClass::Space, verb.len() as int);
        lemma_starts_visible(line);
        assert(spec_split_first_token(line) == (verb, None::<Seq<char>>));
    } else {
        let tail = rest.drop_first();
        assert(line =~= verb + seq![' '] + tail);
        assert(line.last() == rest.last());
        lemma_no_line_break_end(line);
        lemma_first_space_after_word(verb, tail);
        lemma_starts_visible(line);
        assert(line.take(verb.len() as int) =~= verb);
        assert(spec_split_first_token(line).0 == verb);
    }
}

} // verus!
