//! The command line a program was started with.
//!
//! A script that wants one setting reads it directly from the words of the
//! command line (`value`, `flag`). A real tool describes what it accepts as a
//! list of `ARGS_Option` and hands that to `parse_words`, which reads the
//! whole command line, checks it, and returns it as data; the same
//! description generates the help page, so the page cannot describe a flag
//! the program does not accept. Every function here takes the words as
//! values: reading them from the process is the caller's part.

use vstd::prelude::*;
use vstd::string::{StringExecFns, StrSliceExecFns};
use dashmap::DashMap;
use crate::std_lib::boolean::{trim_chars, trimmed};
use crate::text::{chars_of, int_text, int_to_text, push_char, text_is, usize_to_text};

verus! {

/// One flag a program accepts. `short` is a single letter without its dash,
/// or empty for none; `takes_value` separates `--output report.txt` from a
/// bare `--verbose`; `required` is checked by `parse_words`.
#[allow(non_camel_case_types)]
pub struct ARGS_Option {
    pub name: String,
    pub short: String,
    pub description: String,
    pub takes_value: bool,
    pub required: bool,
}

/// A command line, read and checked: the first positional word (or empty),
/// every positional word, the values by long name, and the long names of the
/// flags present that take no value.
#[allow(non_camel_case_types)]
pub struct ARGS_Parsed {
    pub command: String,
    pub positional: Vec<String>,
    pub values: DashMap<String, String>,
    pub flags: Vec<String>,
}

#[verifier::external_type_specification]
#[verifier::external_body]
#[verifier::reject_recursive_types(K)]
#[verifier::reject_recursive_types(V)]
#[verifier::reject_recursive_types(S)]
pub struct ExDashMap<K, V, S>(dashmap::DashMap<K, V, S>);

/// What a map of names to values holds.
pub uninterp spec fn dash_entries(m: DashMap<String, String>) -> Map<Seq<char>, Seq<char>>;

/// No values at all.
pub open spec fn no_values() -> Map<Seq<char>, Seq<char>> {
    Map::empty()
}

/// An empty map.
///
/// Wraps `DashMap::new`, which creates a map with nothing in it.
#[verifier::external_body]
fn dash_new() -> (r: DashMap<String, String>)
    ensures
        dash_entries(r) == no_values(),
{
    DashMap::new()
}

/// Puts a value under a key, replacing what was there.
///
/// Wraps `DashMap::insert`, documented as inserting the key and value into
/// the map, the old value of the key being replaced.
#[verifier::external_body]
fn dash_insert(m: &mut DashMap<String, String>, key: String, value: String)
    ensures
        dash_entries(*final(m)) == dash_entries(*old(m)).insert(key@, value@),
{
    m.insert(key, value);
}

/// Whether a key holds a value.
///
/// Wraps `DashMap::contains_key`, documented as checking whether the map
/// contains the key.
#[verifier::external_body]
fn dash_contains_key(m: &DashMap<String, String>, key: &String) -> (r: bool)
    ensures
        r == dash_entries(*m).contains_key(key@),
{
    m.contains_key(key)
}

/// The view of an option.
pub struct OptionView {
    pub name: Seq<char>,
    pub short: Seq<char>,
    pub description: Seq<char>,
    pub takes_value: bool,
    pub required: bool,
}

/// The view of a list of options.
pub open spec fn option_views(options: Seq<ARGS_Option>) -> Seq<OptionView> {
    Seq::new(
        options.len(),
        |i: int| OptionView {
            name: options[i].name@,
            short: options[i].short@,
            description: options[i].description@,
            takes_value: options[i].takes_value,
            required: options[i].required,
        },
    )
}

/// The texts of a list of strings.
pub open spec fn texts(words: Seq<String>) -> Seq<Seq<char>> {
    Seq::new(words.len(), |i: int| words[i]@)
}

/// How many dashes open a word.
pub open spec fn leading_dashes(w: Seq<char>) -> nat
    decreases w.len(),
{
    if w.len() > 0 && w[0] == '-' {
        1 + leading_dashes(w.skip(1))
    } else {
        0
    }
}

/// Whether a word is a flag rather than a value: `--output`, `-v`, but not
/// `-` alone, and not a negative number, which is a value that happens to
/// start with a dash.
pub open spec fn flag_word(w: Seq<char>) -> bool {
    let rest = w.skip(leading_dashes(w) as int);
    w.len() > 0 && w[0] == '-' && w != "-"@ && !(rest.len() > 0 && '0' <= rest[0] && rest[0] <= '9')
}

/// Where the first `=` of a text is, if it has one.
pub open spec fn first_equals(s: Seq<char>) -> Option<nat>
    decreases s.len(),
{
    if s.len() == 0 {
        None
    } else if s[0] == '=' {
        Some(0)
    } else {
        match first_equals(s.skip(1)) {
            Some(k) => Some(k + 1),
            None => None,
        }
    }
}

/// The first option a written flag names, by its long or its short name.
pub open spec fn option_named(written: Seq<char>, options: Seq<OptionView>) -> Option<OptionView>
    decreases options.len(),
{
    if options.len() == 0 {
        None
    } else if options[0].name == written || (options[0].short.len() > 0 && options[0].short == written) {
        Some(options[0])
    } else {
        option_named(written, options.skip(1))
    }
}

/// What the reading of a command line has gathered so far: the values by long
/// name, the flags, and the positional words.
pub type Gathered = (Map<Seq<char>, Seq<char>>, Seq<Seq<char>>, Seq<Seq<char>>);

/// The error for an option that needs a value and was not given one.
pub open spec fn needs_value(name: Seq<char>) -> Seq<char> {
    "args_parse: --"@ + name + " needs a value"@
}

/// Reads the words of a command line from index `i` on.
pub open spec fn read_words(words: Seq<Seq<char>>, i: nat, options: Seq<OptionView>, got: Gathered) -> Result<Gathered, Seq<char>>
    decreases words.len() - i,
{
    if i >= words.len() {
        Ok(got)
    } else {
        let (values, flags, positional) = got;
        let w = words[i as int];
        if !flag_word(w) {
            read_words(words, i + 1, options, (values, flags, positional.push(w)))
        } else if w == "--help"@ || w == "-h"@ {
            read_words(words, i + 1, options, got)
        } else {
            let bare = w.skip(leading_dashes(w) as int);
            let written = match first_equals(bare) {
                Some(k) => bare.take(k as int),
                None => bare,
            };
            match option_named(written, options) {
                None => Err("args_parse: --"@ + written + " is not an option this program accepts"@),
                Some(o) => if !o.takes_value {
                    if first_equals(bare) is Some {
                        Err("args_parse: --"@ + o.name + " does not take a value"@)
                    } else {
                        read_words(words, i + 1, options, (values, if flags.contains(o.name) { flags } else { flags.push(o.name) }, positional))
                    }
                } else {
                    match first_equals(bare) {
                        Some(k) => if k + 1 < bare.len() {
                            read_words(words, i + 1, options, (values.insert(o.name, bare.skip((k + 1) as int)), flags, positional))
                        } else {
                            Err(needs_value(o.name))
                        },
                        None => if i + 1 < words.len() && !flag_word(words[(i + 1) as int]) {
                            read_words(words, i + 2, options, (values.insert(o.name, words[(i + 1) as int]), flags, positional))
                        } else {
                            Err(needs_value(o.name))
                        },
                    }
                },
            }
        }
    }
}

/// The first required option that is neither a value nor a flag present.
pub open spec fn missing_required(options: Seq<OptionView>, values: Map<Seq<char>, Seq<char>>, flags: Seq<Seq<char>>) -> Option<Seq<char>>
    decreases options.len(),
{
    if options.len() == 0 {
        None
    } else if options[0].required && !values.contains_key(options[0].name) && !flags.contains(options[0].name) {
        Some(options[0].name)
    } else {
        missing_required(options.skip(1), values, flags)
    }
}

/// What reading a command line answers: the error of the first problem, or
/// the command, the positional words, the values and the flags.
pub open spec fn parse_words_result(words: Seq<Seq<char>>, options: Seq<OptionView>) -> Result<(Seq<char>, Seq<Seq<char>>, Map<Seq<char>, Seq<char>>, Seq<Seq<char>>), Seq<char>> {
    match read_words(words, 0, options, (Map::empty(), Seq::empty(), Seq::empty())) {
        Err(e) => Err(e),
        Ok((values, flags, positional)) => match missing_required(options, values, flags) {
            Some(name) => Err("args_parse: --"@ + name + " is required"@),
            None => Ok((if positional.len() > 0 { positional[0] } else { Seq::empty() }, positional, values, flags)),
        },
    }
}

/// A string holding some of the characters of a list.
fn text_from(chars: &Vec<char>, from: usize, to: usize) -> (r: String)
    requires
        from <= to <= chars@.len(),
    ensures
        r@ == chars@.subrange(from as int, to as int),
{
    let mut out = String::new();
    let mut i = from;
    while i < to
        invariant
            from <= i <= to <= chars@.len(),
            out@ == chars@.subrange(from as int, i as int),
        decreases to - i,
    {
        push_char(&mut out, chars[i]);
        i = i + 1;
        proof { assert(out@ =~= chars@.subrange(from as int, i as int)); }
    }
    out
}

/// How many dashes open a word.
fn count_dashes(w: &Vec<char>) -> (r: usize)
    ensures
        r == leading_dashes(w@),
        r <= w@.len(),
{
    let mut k: usize = 0;
    proof { assert(w@.skip(0) =~= w@); }
    while k < w.len() && w[k] == '-'
        invariant
            k <= w@.len(),
            forall|j: int| 0 <= j < k ==> w@[j] == '-',
            leading_dashes(w@) == k + leading_dashes(w@.skip(k as int)),
        decreases w@.len() - k,
    {
        proof {
            assert(w@.skip(k as int).skip(1) =~= w@.skip(k + 1));
        }
        k = k + 1;
    }
    k
}

/// Whether a word is a flag rather than a value.
pub fn is_flag(word: &str) -> (r: bool)
    ensures
        r == flag_word(word@),
{
    let w = chars_of(word);
    if w.len() == 0 || w[0] != '-' || text_is(&word_text(&w), "-") {
        return false;
    }
    let k = count_dashes(&w);
    !(k < w.len() && '0' <= w[k] && w[k] <= '9')
}

/// A string of a list of characters.
fn word_text(w: &Vec<char>) -> (r: String)
    ensures
        r@ == w@,
{
    let r = text_from(w, 0, w.len());
    proof { assert(w@.subrange(0, w@.len() as int) =~= w@); }
    r
}

/// Where the first `=` of a list of characters is, from a position on.
fn find_equals(w: &Vec<char>, from: usize) -> (r: Option<usize>)
    requires
        from <= w@.len(),
    ensures
        match first_equals(w@.skip(from as int)) {
            Some(k) => r is Some && r->0 == from + k,
            None => r is None,
        },
        r matches Some(e) ==> from <= e < w@.len(),
{
    let ghost s = w@.skip(from as int);
    proof { lemma_first_equals(s); }
    let mut i: usize = from;
    while i < w.len()
        invariant
            from <= i <= w@.len(),
            s == w@.skip(from as int),
            forall|j: int| from <= j < i ==> w@[j] != '=',
        decreases w@.len() - i,
    {
        if w[i] == '=' {
            proof {
                assert(s[i - from] == '=');
                lemma_first_equals(s);
                assert forall|j: int| 0 <= j < i - from implies s[j] != '=' by {
                    assert(s[j] == w@[j + from]);
                }
                match first_equals(s) {
                    Some(k) => {
                        if k < i - from {
                            assert(s[k as int] != '=');
                        }
                        if k > i - from {
                            assert(s[(i - from) as int] != '=');
                        }
                        assert(k == i - from);
                    },
                    None => {
                        assert(s[(i - from) as int] != '=');
                    },
                }
            }
            return Some(i);
        }
        i = i + 1;
    }
    proof {
        assert forall|j: int| 0 <= j < s.len() implies s[j] != '=' by {
            assert(s[j] == w@[j + from]);
        }
    }
    None
}

/// Where the first `=` is, said with a quantifier.
proof fn lemma_first_equals(s: Seq<char>)
    ensures
        match first_equals(s) {
            Some(k) => k < s.len() && s[k as int] == '=' && forall|j: int| 0 <= j < k ==> s[j] != '=',
            None => forall|j: int| 0 <= j < s.len() ==> s[j] != '=',
        },
    decreases s.len(),
{
    if s.len() > 0 {
        lemma_first_equals(s.skip(1));
        match first_equals(s.skip(1)) {
            Some(k) => {
                assert forall|j: int| 1 <= j < k + 1 implies s[j] != '=' by {
                    assert(s[j] == s.skip(1)[j - 1]);
                }
            },
            None => {
                assert forall|j: int| 1 <= j < s.len() implies s[j] != '=' by {
                    assert(s[j] == s.skip(1)[j - 1]);
                }
            },
        }
    }
}

/// Whether a list of strings holds a text.
fn has_text(list: &Vec<String>, t: &String) -> (r: bool)
    ensures
        r == texts(list@).contains(t@),
{
    let mut i: usize = 0;
    while i < list.len()
        invariant
            i <= list@.len(),
            forall|j: int| 0 <= j < i ==> list@[j]@ != t@,
        decreases list@.len() - i,
    {
        if list[i] == *t {
            proof { assert(texts(list@)[i as int] == t@); }
            return true;
        }
        i = i + 1;
    }
    proof {
        if texts(list@).contains(t@) {
            let j = choose|j: int| 0 <= j < texts(list@).len() && texts(list@)[j] == t@;
            assert(list@[j]@ == t@);
        }
    }
    false
}

/// The first option a written flag names, by its long or its short name.
fn option_for(written: &String, options: &Vec<ARGS_Option>) -> (r: Option<usize>)
    ensures
        match option_named(written@, option_views(options@)) {
            Some(o) => r matches Some(i) && i < options@.len() && option_views(options@)[i as int] == o,
            None => r is None,
        },
{
    let ghost all = option_views(options@);
    let mut i: usize = 0;
    proof { assert(all.skip(0) =~= all); }
    while i < options.len()
        invariant
            i <= options@.len(),
            all == option_views(options@),
            option_named(written@, all) == option_named(written@, all.skip(i as int)),
        decreases options@.len() - i,
    {
        let option = &options[i];
        proof {
            assert(all.skip(i as int)[0] == all[i as int]);
            assert(all.skip(i as int).skip(1) =~= all.skip(i + 1));
        }
        if option.name == *written || (option.short.as_str().unicode_len() > 0 && option.short == *written) {
            return Some(i);
        }
        i = i + 1;
    }
    None
}

/// `"args_parse: --"`, a name, and the rest of a message.
fn parse_message(name: &str, rest: &str) -> (r: String)
    ensures
        r@ == "args_parse: --"@ + name@ + rest@,
{
    let mut message = String::from_str("args_parse: --");
    message.append(name);
    message.append(rest);
    message
}

/// The texts of a list with one more string.
proof fn lemma_texts_push(list: Seq<String>, s: String)
    ensures
        texts(list.push(s)) == texts(list).push(s@),
{
    assert(texts(list.push(s)) =~= texts(list).push(s@));
}

/// Reads and checks a whole command line, given as its words after the
/// program name, against the program's description of it. The checks are:
/// no flag the program does not accept, every option that takes a value
/// given one, no value handed to an option that takes none, and every
/// required option present. The first problem found is the error.
pub fn parse_words(words: &Vec<String>, options: &Vec<ARGS_Option>) -> (r: Result<ARGS_Parsed, String>)
    ensures
        match r {
            Ok(p) => parse_words_result(texts(words@), option_views(options@))
                == Ok::<(Seq<char>, Seq<Seq<char>>, Map<Seq<char>, Seq<char>>, Seq<Seq<char>>), Seq<char>>((p.command@, texts(p.positional@), dash_entries(p.values), texts(p.flags@))),
            Err(e) => parse_words_result(texts(words@), option_views(options@))
                == Err::<(Seq<char>, Seq<Seq<char>>, Map<Seq<char>, Seq<char>>, Seq<Seq<char>>), Seq<char>>(e@),
        },
{
    let ghost ws = texts(words@);
    let ghost opts = option_views(options@);
    let mut values = dash_new();
    let mut flags: Vec<String> = Vec::new();
    let mut positional: Vec<String> = Vec::new();
    let mut index: usize = 0;
    proof {
        assert(texts(flags@) =~= Seq::<Seq<char>>::empty());
        assert(texts(positional@) =~= Seq::<Seq<char>>::empty());
    }
    while index < words.len()
        invariant
            index <= words@.len(),
            ws == texts(words@),
            opts == option_views(options@),
            read_words(ws, 0, opts, (Map::empty(), Seq::empty(), Seq::empty()))
                == read_words(ws, index as nat, opts, (dash_entries(values), texts(flags@), texts(positional@))),
        decreases words@.len() - index,
    {
        let word = &words[index];
        proof { assert(ws[index as int] == word@); }
        if !is_flag(word.as_str()) {
            let ghost before = positional@;
            positional.push(word.clone());
            proof { lemma_texts_push(before, *word); assert(before.push(*word) =~= positional@); }
            index = index + 1;
            continue;
        }
        if text_is(word, "--help") || text_is(word, "-h") {
            index = index + 1;
            continue;
        }
        let w = chars_of(word.as_str());
        let dashes = count_dashes(&w);
        let equals = find_equals(&w, dashes);
        let name_end = match equals {
            Some(e) => e,
            None => w.len(),
        };
        let written = text_from(&w, dashes, name_end);
        proof {
            let bare = w@.skip(dashes as int);
            match first_equals(bare) {
                Some(k) => {
                    lemma_first_equals(bare);
                    assert(dashes + k < w@.len());
                    assert(name_end == dashes + k);
                    assert(written@ =~= bare.take(k as int));
                },
                None => assert(written@ =~= bare),
            }
        }
        let chosen = match option_for(&written, options) {
            Some(i) => i,
            None => {
                return Err(parse_message(written.as_str(), " is not an option this program accepts"));
            },
        };
        let option = &options[chosen];
        if !option.takes_value {
            if equals.is_some() {
                return Err(parse_message(option.name.as_str(), " does not take a value"));
            }
            if !has_text(&flags, &option.name) {
                let ghost before = flags@;
                flags.push(option.name.clone());
                proof { lemma_texts_push(before, option.name); assert(before.push(option.name) =~= flags@); }
            }
            index = index + 1;
            continue;
        }
        let given = match equals {
            Some(e) => {
                if e < w.len() - 1 {
                    let v = text_from(&w, e + 1, w.len());
                    proof {
                        let bare = w@.skip(dashes as int);
                        assert(v@ =~= bare.skip((e - dashes + 1) as int));
                    }
                    v
                } else {
                    return Err(parse_message(option.name.as_str(), " needs a value"));
                }
            },
            None => {
                if index + 1 < words.len() && !is_flag(words[index + 1].as_str()) {
                    index = index + 1;
                    proof { assert(ws[index as int] == words@[index as int]@); }
                    words[index].clone()
                } else {
                    if index + 1 < words.len() {
                        proof { assert(ws[index + 1] == words@[index + 1]@); }
                    }
                    return Err(parse_message(option.name.as_str(), " needs a value"));
                }
            },
        };
        dash_insert(&mut values, option.name.clone(), given);
        index = index + 1;
    }
    let mut i: usize = 0;
    proof { assert(opts.skip(0) =~= opts); }
    while i < options.len()
        invariant
            i <= options@.len(),
            opts == option_views(options@),
            ws == texts(words@),
            read_words(ws, 0, opts, (Map::empty(), Seq::empty(), Seq::empty()))
                == Ok::<Gathered, Seq<char>>((dash_entries(values), texts(flags@), texts(positional@))),
            missing_required(opts, dash_entries(values), texts(flags@)) == missing_required(opts.skip(i as int), dash_entries(values), texts(flags@)),
        decreases options@.len() - i,
    {
        let option = &options[i];
        proof {
            assert(opts.skip(i as int)[0] == opts[i as int]);
            assert(opts.skip(i as int).skip(1) =~= opts.skip(i + 1));
        }
        if option.required && !dash_contains_key(&values, &option.name) && !has_text(&flags, &option.name) {
            return Err(parse_message(option.name.as_str(), " is required"));
        }
        i = i + 1;
    }
    let command = if positional.len() > 0 { positional[0].clone() } else { String::new() };
    Ok(ARGS_Parsed { command, positional, values, flags })
}

/// `"--"` and a name.
pub open spec fn long_form(name: Seq<char>) -> Seq<char> {
    "--"@ + name
}

/// What reading the value of `--name` finds in the words of a command line,
/// from index `i` on: `--name=value`, or `--name` followed by a word that
/// does not start with a dash.
pub open spec fn value_from(args: Seq<Seq<char>>, name: Seq<char>, i: nat) -> Result<Seq<char>, Seq<char>>
    decreases args.len() - i,
{
    if i >= args.len() {
        Err("args_value: argument --"@ + name + " was not passed to the program"@)
    } else {
        let arg = args[i as int];
        let with_equals = long_form(name) + "="@;
        if arg.len() >= with_equals.len() && arg.take(with_equals.len() as int) == with_equals {
            let v = arg.skip(with_equals.len() as int);
            if v.len() == 0 {
                Err("args_value: argument --"@ + name + " has an empty value"@)
            } else {
                Ok(v)
            }
        } else if arg == long_form(name) {
            if i + 1 < args.len() && !(args[(i + 1) as int].len() > 0 && args[(i + 1) as int][0] == '-') {
                Ok(args[(i + 1) as int])
            } else {
                Err("args_value: no value provided for argument --"@ + name)
            }
        } else {
            value_from(args, name, i + 1)
        }
    }
}

/// Whether a list of characters starts with another.
fn starts_with(w: &Vec<char>, prefix: &Vec<char>) -> (r: bool)
    ensures
        r == (w@.len() >= prefix@.len() && w@.take(prefix@.len() as int) == prefix@),
{
    if w.len() < prefix.len() {
        return false;
    }
    let mut i: usize = 0;
    while i < prefix.len()
        invariant
            i <= prefix@.len() <= w@.len(),
            forall|j: int| 0 <= j < i ==> w@[j] == prefix@[j],
        decreases prefix@.len() - i,
    {
        if w[i] != prefix[i] {
            proof { assert(w@.take(prefix@.len() as int)[i as int] != prefix@[i as int]); }
            return false;
        }
        i = i + 1;
    }
    proof { assert(w@.take(prefix@.len() as int) =~= prefix@); }
    true
}

/// `"--"` and a name, with more after it.
fn long_flag(name: &String, tail: &str) -> (r: String)
    ensures
        r@ == long_form(name@) + tail@,
{
    let mut text = String::from_str("--");
    text.append(name.as_str());
    text.append(tail);
    text
}

/// `"--"` and a name.
fn long_name(name: &String) -> (r: String)
    ensures
        r@ == long_form(name@),
{
    let mut text = String::from_str("--");
    text.append(name.as_str());
    text
}

/// The value of `--name` on a command line (the program's name first, as
/// the process hands it over): `--name=value`, or `--name value` where the
/// value does not start with a dash.
pub fn value(args: &Vec<String>, name: String) -> (r: Result<String, String>)
    ensures
        match r {
            Ok(v) => value_from(texts(args@), name@, 0) == Ok::<Seq<char>, Seq<char>>(v@),
            Err(e) => value_from(texts(args@), name@, 0) == Err::<Seq<char>, Seq<char>>(e@),
        },
{
    let ghost all = texts(args@);
    let with_equals = chars_of(long_flag(&name, "=").as_str());
    let bare = long_name(&name);
    let mut i: usize = 0;
    while i < args.len()
        invariant
            i <= args@.len(),
            all == texts(args@),
            with_equals@ == long_form(name@) + "="@,
            bare@ == long_form(name@),
            value_from(all, name@, 0) == value_from(all, name@, i as nat),
        decreases args@.len() - i,
    {
        let arg = chars_of(args[i].as_str());
        proof {
            assert(all[i as int] == arg@);
        }
        if starts_with(&arg, &with_equals) {
            let v = text_from(&arg, with_equals.len(), arg.len());
            if v.as_str().unicode_len() == 0 {
                let mut message = String::from_str("args_value: argument --");
                message.append(name.as_str());
                message.append(" has an empty value");
                return Err(message);
            }
            return Ok(v);
        }
        if args[i] == bare {
            if i + 1 < args.len() {
                let next = chars_of(args[i + 1].as_str());
                proof { assert(all[i + 1] == next@); }
                if !(next.len() > 0 && next[0] == '-') {
                    return Ok(args[i + 1].clone());
                }
            }
            let mut message = String::from_str("args_value: no value provided for argument --");
            message.append(name.as_str());
            return Err(message);
        }
        i = i + 1;
    }
    let mut message = String::from_str("args_value: argument --");
    message.append(name.as_str());
    message.append(" was not passed to the program");
    Err(message)
}

/// Whether a flag was passed: `--name`, or `-n` when the name is a single
/// byte long.
pub open spec fn flag_passed(args: Seq<Seq<char>>, name: Seq<char>) -> bool {
    exists|i: int| 0 <= i < args.len() && (args[i] == long_form(name)
        || (vstd::utf8::encode_utf8(name).len() == 1 && args[i] == "-"@ + name))
}

/// Whether a flag was passed on a command line: `--name`, or `-n` for a name
/// one byte long.
pub fn flag(args: &Vec<String>, name: String) -> (r: bool)
    ensures
        r == flag_passed(texts(args@), name@),
{
    let long = long_name(&name);
    let mut short = String::from_str("-");
    short.append(name.as_str());
    let single = name.as_str().as_bytes().len() == 1;
    let ghost all = texts(args@);
    let mut i: usize = 0;
    while i < args.len()
        invariant
            i <= args@.len(),
            all == texts(args@),
            long@ == long_form(name@),
            short@ == "-"@ + name@,
            single == (vstd::utf8::encode_utf8(name@).len() == 1),
            forall|j: int| 0 <= j < i ==> !(all[j] == long_form(name@) || (single && all[j] == "-"@ + name@)),
        decreases args@.len() - i,
    {
        if args[i] == long || (single && args[i] == short) {
            proof { assert(all[i as int] == args@[i as int]@); }
            return true;
        }
        i = i + 1;
    }
    false
}

/// A command-line word by position, the program's name being at 0.
pub fn get(args: &Vec<String>, index: i64) -> (r: Result<String, String>)
    ensures
        index < 0 ==> (r matches Err(e) && e@ == "args_get: argument index cannot be negative, got "@ + int_text(index as int)),
        index >= args@.len() ==> (r matches Err(e)
            && e@ == "args_get: index "@ + int_text(index as int) + " is out of bounds, the program received "@ + int_text(args@.len() as int) + " argument(s)"@),
        0 <= index < args@.len() ==> (r matches Ok(s) && s@ == args@[index as int]@),
{
    if index < 0 {
        let mut message = String::from_str("args_get: argument index cannot be negative, got ");
        message.append(int_to_text(index).as_str());
        return Err(message);
    }
    if index as u64 >= args.len() as u64 {
        let mut message = String::from_str("args_get: index ");
        message.append(int_to_text(index).as_str());
        message.append(" is out of bounds, the program received ");
        message.append(usize_to_text(args.len()).as_str());
        message.append(" argument(s)");
        return Err(message);
    }
    Ok(args[index as usize].clone())
}

/// How many words the command line has, the program's name included.
pub fn count(args: &Vec<String>) -> (r: i64)
    ensures
        r == args@.len() as i64,
{
    args.len() as i64
}

/// The value of a flag, or the fallback when it was not passed.
pub fn value_or(args: &Vec<String>, name: String, fallback: String) -> (r: String)
    ensures
        r@ == match value_from(texts(args@), name@, 0) {
            Ok(v) => v,
            Err(_) => fallback@,
        },
{
    match value(args, name) {
        Ok(v) => v,
        Err(_) => fallback,
    }
}

/// The number a run of decimal digits spells.
pub open spec fn digits_value(s: Seq<char>) -> int
    decreases s.len(),
{
    if s.len() == 0 {
        0
    } else {
        10 * digits_value(s.drop_last()) + (s.last() as int - '0' as int)
    }
}

/// Whether every character is a decimal digit.
pub open spec fn all_digits(s: Seq<char>) -> bool {
    forall|i: int| 0 <= i < s.len() ==> '0' <= #[trigger] s[i] <= '9'
}

/// A whole number as Rust reads one out of text: an optional `+` or `-` and
/// then at least one decimal digit, nothing else, within the 64-bit range.
pub open spec fn whole_number(s: Seq<char>) -> Option<i64> {
    let signed = s.len() > 0 && (s[0] == '+' || s[0] == '-');
    let body = if signed { s.skip(1) } else { s };
    let v = if signed && s[0] == '-' { -digits_value(body) } else { digits_value(body) };
    if body.len() > 0 && all_digits(body) && i64::MIN <= v <= i64::MAX {
        Some(v as i64)
    } else {
        None
    }
}

/// A longer run of digits spells at least as much.
proof fn lemma_digits_grow(s: Seq<char>, j: int)
    requires
        all_digits(s),
        0 <= j <= s.len(),
    ensures
        0 <= digits_value(s.take(j)) <= digits_value(s),
    decreases s.len(),
{
    if s.len() > 0 {
        let front = s.drop_last();
        assert(all_digits(front)) by {
            assert forall|i: int| 0 <= i < front.len() implies '0' <= #[trigger] front[i] <= '9' by {
                assert(front[i] == s[i]);
            }
        }
        if j == s.len() {
            assert(s.take(j) =~= s);
            lemma_digits_grow(front, front.len() as int);
            assert(front.take(front.len() as int) =~= front);
        } else {
            lemma_digits_grow(front, j);
            assert(front.take(j) =~= s.take(j));
            lemma_digits_grow(front, front.len() as int);
            assert(front.take(front.len() as int) =~= front);
            assert('0' <= s[s.len() - 1] <= '9');
        }
    }
}

/// Reads a whole number out of text the way Rust's `i64` parsing does.
fn parse_whole_number(s: &Vec<char>) -> (r: Option<i64>)
    ensures
        r == whole_number(s@),
{
    let signed = s.len() > 0 && (s[0] == '+' || s[0] == '-');
    let negative = signed && s[0] == '-';
    let start: usize = if signed { 1 } else { 0 };
    let ghost body = if signed { s@.skip(1) } else { s@ };
    if start >= s.len() {
        return None;
    }
    // The magnitude, while it fits in 64 bits unsigned.
    let mut magnitude: u64 = 0;
    let mut too_big = false;
    let mut i = start;
    proof { assert(body.take(0) =~= Seq::<char>::empty()); }
    while i < s.len()
        invariant
            start <= i <= s@.len(),
            signed == (s@.len() > 0 && (s@[0] == '+' || s@[0] == '-')),
            negative == (signed && s@[0] == '-'),
            body == (if signed { s@.skip(1) } else { s@ }),
            start == (if signed { 1int } else { 0int }),
            body == s@.skip(start as int),
            all_digits(body.take(i - start)),
            !too_big ==> magnitude == digits_value(body.take(i - start)),
            too_big ==> digits_value(body.take(i - start)) > u64::MAX,
        decreases s@.len() - i,
    {
        let c = s[i];
        if !('0' <= c && c <= '9') {
            proof {
                assert(body[i - start] == c);
                assert(!all_digits(body));
            }
            return None;
        }
        let digit = (c as u32 - '0' as u32) as u64;
        let ghost before = body.take(i - start);
        proof {
            assert(body.take(i - start + 1).drop_last() =~= before);
            assert(body.take(i - start + 1).last() == c);
            assert(all_digits(body.take(i - start + 1))) by {
                assert forall|j: int| 0 <= j < i - start + 1 implies '0' <= #[trigger] body.take(i - start + 1)[j] <= '9' by {
                    if j < i - start {
                        assert(body.take(i - start + 1)[j] == before[j]);
                    }
                }
            }
        }
        if !too_big {
            match magnitude.checked_mul(10) {
                Some(m) => match m.checked_add(digit) {
                    Some(n) => {
                        magnitude = n;
                    },
                    None => {
                        too_big = true;
                    },
                },
                None => {
                    too_big = true;
                },
            }
        }
        i = i + 1;
    }
    proof {
        assert(body.take(body.len() as int) =~= body);
    }
    if too_big {
        return None;
    }
    if negative {
        if magnitude > 9223372036854775808u64 {
            return None;
        }
        if magnitude == 9223372036854775808u64 {
            return Some(i64::MIN);
        }
        Some(-(magnitude as i64))
    } else {
        if magnitude > 9223372036854775807u64 {
            return None;
        }
        Some(magnitude as i64)
    }
}

/// What reading `--name` as a whole number answers.
pub open spec fn value_int_result(args: Seq<Seq<char>>, name: Seq<char>) -> Result<i64, Seq<char>> {
    match value_from(args, name, 0) {
        Err(e) => Err(e),
        Ok(raw) => match whole_number(trimmed(raw)) {
            Some(v) => Ok(v),
            None => Err("args_value_int: --"@ + name + " was given '"@ + raw + "', which is not a whole number"@),
        },
    }
}

/// The value of a flag read as a whole number. A flag that is not there and a
/// flag whose value is not a number are different errors, because they need
/// different fixes.
pub fn value_int(args: &Vec<String>, name: String) -> (r: Result<i64, String>)
    ensures
        match r {
            Ok(v) => value_int_result(texts(args@), name@) == Ok::<i64, Seq<char>>(v),
            Err(e) => value_int_result(texts(args@), name@) == Err::<i64, Seq<char>>(e@),
        },
{
    let raw = match value(args, name.clone()) {
        Ok(raw) => raw,
        Err(e) => return Err(e),
    };
    match parse_whole_number(&trim_chars(raw.as_str())) {
        Some(v) => Ok(v),
        None => {
            let mut message = String::from_str("args_value_int: --");
            message.append(name.as_str());
            message.append(" was given '");
            message.append(raw.as_str());
            message.append("', which is not a whole number");
            Err(message)
        },
    }
}

/// Whether the program was asked for help, by `--help` or `-h` anywhere
/// after the program's name.
pub fn wants_help(args: &Vec<String>) -> (r: bool)
    ensures
        r == exists|i: int| 1 <= i < args@.len() && (args@[i]@ == "--help"@ || args@[i]@ == "-h"@),
{
    let mut i: usize = 1;
    while i < args.len()
        invariant
            1 <= i,
            forall|j: int| 1 <= j < i && j < args@.len() ==> !(args@[j]@ == "--help"@ || args@[j]@ == "-h"@),
        decreases args@.len() - i,
    {
        if text_is(&args[i], "--help") || text_is(&args[i], "-h") {
            return true;
        }
        i = i + 1;
    }
    false
}

/// How an option is written in the left column of the help page.
pub open spec fn flag_column(o: OptionView) -> Seq<char> {
    (if o.short.len() == 0 { "    "@ } else { "-"@ + o.short + ", "@ }) + "--"@ + o.name + (if o.takes_value {
        " <value>"@
    } else {
        Seq::empty()
    })
}

/// How wide the left column is: its widest entry, help's own included.
pub open spec fn column_width(options: Seq<OptionView>) -> nat
    decreases options.len(),
{
    if options.len() == 0 {
        "-h, --help"@.len()
    } else {
        let rest = column_width(options.drop_last());
        let this = flag_column(options.last()).len();
        if this > rest { this } else { rest }
    }
}

/// `n` spaces.
pub open spec fn spaces(n: int) -> Seq<char> {
    Seq::new(if n > 0 { n as nat } else { 0 }, |i: int| ' ')
}

/// The line of the help page for one option.
pub open spec fn option_line(o: OptionView, width: nat) -> Seq<char> {
    "  "@ + flag_column(o) + spaces(width - flag_column(o).len()) + "  "@ + o.description + (if o.required {
        " (required)"@
    } else {
        Seq::empty()
    }) + "\n"@
}

/// The lines of the help page for a list of options, in order.
pub open spec fn option_lines(options: Seq<OptionView>, width: nat) -> Seq<char>
    decreases options.len(),
{
    if options.len() == 0 {
        Seq::empty()
    } else {
        option_lines(options.drop_last(), width) + option_line(options.last(), width)
    }
}

/// The `--help` page for a program and the options it accepts.
pub open spec fn help_page(program: Seq<char>, description: Seq<char>, options: Seq<OptionView>) -> Seq<char> {
    let width = column_width(options);
    (if description.len() > 0 { description + "\n\n"@ } else { Seq::empty() }) + "Usage: "@ + program + " [options]"@ + (if exists|i: int|
        0 <= i < options.len() && #[trigger] options[i].required {
        "\n\nRequired options are marked."@
    } else {
        Seq::empty()
    }) + "\n\nOptions:\n"@ + option_lines(options, width) + "  -h, --help"@ + spaces(width - "-h, --help"@.len()) + "  Show this help and exit\n"@
}

/// Appends `n` spaces.
fn push_spaces(out: &mut String, n: usize)
    ensures
        final(out)@ == old(out)@ + spaces(n as int),
{
    let mut i: usize = 0;
    while i < n
        invariant
            i <= n,
            out@ == old(out)@ + spaces(i as int),
        decreases n - i,
    {
        push_char(out, ' ');
        i = i + 1;
        proof { assert(out@ =~= old(out)@ + spaces(i as int)); }
    }
}

/// The left-column entry for an option.
fn column_of(option: &ARGS_Option) -> (r: String)
    ensures
        r@ == flag_column(OptionView {
            name: option.name@,
            short: option.short@,
            description: option.description@,
            takes_value: option.takes_value,
            required: option.required,
        }),
{
    let mut flag = String::new();
    if option.short.as_str().unicode_len() == 0 {
        flag.append("    ");
    } else {
        flag.append("-");
        flag.append(option.short.as_str());
        flag.append(", ");
    }
    flag.append("--");
    flag.append(option.name.as_str());
    if option.takes_value {
        flag.append(" <value>");
    }
    proof {
        if !option.takes_value {
            assert(flag@ =~= flag@ + Seq::<char>::empty());
        }
    }
    flag
}

/// The `--help` page, built from the description of the command line so it
/// cannot drift from what the program actually accepts. The left column is
/// as wide as its widest entry, so the descriptions line up.
pub fn help_text(program: String, description: String, options: &Vec<ARGS_Option>) -> (r: String)
    ensures
        r@ == help_page(program@, description@, option_views(options@)),
{
    let ghost opts = option_views(options@);
    let mut out = String::new();
    if description.as_str().unicode_len() > 0 {
        out.append(description.as_str());
        out.append("\n\n");
    }
    out.append("Usage: ");
    out.append(program.as_str());
    out.append(" [options]");
    let mut any_required = false;
    let mut i: usize = 0;
    while i < options.len()
        invariant
            i <= options@.len(),
            opts == option_views(options@),
            any_required == exists|j: int| 0 <= j < i && #[trigger] opts[j].required,
        decreases options@.len() - i,
    {
        if options[i].required {
            proof { assert(opts[i as int].required); }
            any_required = true;
        }
        i = i + 1;
    }
    if any_required {
        out.append("\n\nRequired options are marked.");
    }
    out.append("\n\nOptions:\n");
    let ghost header = out@;
    let help_flag = "-h, --help";
    let help_width = help_flag.unicode_len();
    let mut written: Vec<String> = Vec::new();
    let mut widest: usize = help_width;
    let mut i: usize = 0;
    proof { assert(opts.take(0) =~= Seq::<OptionView>::empty()); }
    while i < options.len()
        invariant
            i <= options@.len(),
            opts == option_views(options@),
            help_width == "-h, --help"@.len(),
            written@.len() == i,
            forall|j: int| 0 <= j < i ==> #[trigger] written@[j]@ == flag_column(opts[j]),
            widest == column_width(opts.take(i as int)),
        decreases options@.len() - i,
    {
        let column = column_of(&options[i]);
        let width = column.as_str().unicode_len();
        proof {
            assert(opts.take(i + 1).drop_last() =~= opts.take(i as int));
            assert(opts.take(i + 1).last() == opts[i as int]);
        }
        if width > widest {
            widest = width;
        }
        written.push(column);
        i = i + 1;
    }
    proof { assert(opts.take(opts.len() as int) =~= opts); }
    let mut i: usize = 0;
    proof { assert(option_lines(opts.take(0), widest as nat) =~= Seq::<char>::empty()); }
    while i < options.len()
        invariant
            i <= options@.len(),
            opts == option_views(options@),
            written@.len() == options@.len(),
            forall|j: int| 0 <= j < options@.len() ==> #[trigger] written@[j]@ == flag_column(opts[j]),
            widest == column_width(opts),
            out@ == header + option_lines(opts.take(i as int), widest as nat),
        decreases options@.len() - i,
    {
        let option = &options[i];
        let column_width_here = written[i].as_str().unicode_len();
        proof { lemma_column_fits(opts, i as int); }
        out.append("  ");
        out.append(written[i].as_str());
        push_spaces(&mut out, widest - column_width_here);
        out.append("  ");
        out.append(option.description.as_str());
        if option.required {
            out.append(" (required)");
        }
        out.append("\n");
        proof {
            assert(opts.take(i + 1).drop_last() =~= opts.take(i as int));
            assert(opts.take(i + 1).last() == opts[i as int]);
            let line = option_line(opts[i as int], widest as nat);
            assert(out@ =~= header + option_lines(opts.take(i as int), widest as nat) + line);
        }
        i = i + 1;
    }
    proof { assert(opts.take(opts.len() as int) =~= opts); }
    out.append("  -h, --help");
    proof { lemma_column_at_least_help(opts); }
    push_spaces(&mut out, widest - help_width);
    out.append("  Show this help and exit\n");
    proof {
        let required_note = if exists|j: int| 0 <= j < opts.len() && #[trigger] opts[j].required { "\n\nRequired options are marked."@ } else { Seq::<char>::empty() };
        let lead = if description@.len() > 0 { description@ + "\n\n"@ } else { Seq::<char>::empty() };
        assert(header =~= lead + "Usage: "@ + program@ + " [options]"@ + required_note + "\n\nOptions:\n"@);
    }
    out
}

/// Every entry fits the column.
proof fn lemma_column_fits(opts: Seq<OptionView>, i: int)
    requires
        0 <= i < opts.len(),
    ensures
        flag_column(opts[i]).len() <= column_width(opts),
    decreases opts.len(),
{
    if i < opts.len() - 1 {
        assert(opts.drop_last()[i] == opts[i]);
        lemma_column_fits(opts.drop_last(), i);
    }
}

/// Help's own entry fits the column.
proof fn lemma_column_at_least_help(opts: Seq<OptionView>)
    ensures
        "-h, --help"@.len() <= column_width(opts),
    decreases opts.len(),
{
    if opts.len() > 0 {
        lemma_column_at_least_help(opts.drop_last());
    }
}

} // verus!
