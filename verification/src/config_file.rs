//! Single properties of the configuration file, a TOML table: reading one,
//! listing all, and setting one (the array property through `add:`, `rm:`
//! and `rmi:` edits).

use vstd::prelude::*;
use crate::error::DfmError;
use crate::settings::{strings_view, opt_view};
use crate::text::{concat_str, chars_of, chars_eq, string_of, slice_to_vec, has_prefix, starts_with, parse_unsigned, parse_unsigned_spec};

verus! {

/// What `toml` makes of a document and a top-level key: the key's value as
/// `toml` renders it (`None` when absent), or the parser's message for a
/// document that is no TOML table.
pub uninterp spec fn toml_get(doc: Seq<char>, key: Seq<char>) -> Result<Option<Seq<char>>, Seq<char>>;

/// What `toml` makes of a document: each top-level key with its value as
/// `toml` renders it, in the table's order, or the parser's message.
pub uninterp spec fn toml_list(doc: Seq<char>) -> Result<Seq<(Seq<char>, Seq<char>)>, Seq<char>>;

/// What `toml` makes of a document with a top-level key set to a string:
/// the pretty-printed table, or a failure: whether the parser (rather than
/// the printer) failed, and its message.
pub uninterp spec fn toml_with(doc: Seq<char>, key: Seq<char>, value: Seq<char>) -> Result<Seq<char>, (bool, Seq<char>)>;

/// Calls `toml::from_str` for a `toml::Table`, then `Table::get` and renders
/// the value with `to_string`. The contract names the result `toml_get`.
#[verifier::external_body]
fn toml_lookup(doc: &str, key: &str) -> (r: Result<Option<String>, String>)
    ensures
        (match r {
            Ok(v) => Ok(opt_view(v)),
            Err(m) => Err(m@),
        }) == toml_get(doc@, key@),
{
    match toml::from_str::<toml::Table>(doc) {
        Ok(table) => match table.get(key) {
            Some(v) => Ok(Some(v.to_string())),
            None => Ok(None),
        },
        Err(e) => Err(e.to_string()),
    }
}

/// The views of name and value pairs.
pub open spec fn pairs_view(v: Seq<(String, String)>) -> Seq<(Seq<char>, Seq<char>)> {
    v.map_values(|p: (String, String)| (p.0@, p.1@))
}

/// Calls `toml::from_str` for a `toml::Table`, then walks the table and
/// renders each value with `to_string`. The contract names the result
/// `toml_list`.
#[verifier::external_body]
fn toml_entries(doc: &str) -> (r: Result<Vec<(String, String)>, String>)
    ensures
        (match r {
            Ok(v) => Ok(pairs_view(v@)),
            Err(m) => Err(m@),
        }) == toml_list(doc@),
{
    match toml::from_str::<toml::Table>(doc) {
        Ok(table) => Ok(table.iter().map(|(name, value)| (name.clone(), value.to_string())).collect()),
        Err(e) => Err(e.to_string()),
    }
}

/// Calls `toml::from_str` for a `toml::Table`, `Table::insert` with a string
/// value, and `toml::to_string_pretty`. The contract names the result
/// `toml_with`.
#[verifier::external_body]
fn toml_set(doc: &str, key: &str, value: &str) -> (r: Result<String, (bool, String)>)
    ensures
        (match r {
            Ok(t) => Ok(t@),
            Err((parse, m)) => Err((parse, m@)),
        }) == toml_with(doc@, key@, value@),
{
    let mut table = match toml::from_str::<toml::Table>(doc) {
        Ok(t) => t,
        Err(e) => return Err((true, e.to_string())),
    };
    table.insert(key.to_owned(), toml::Value::String(value.to_owned()));
    match toml::to_string_pretty(&table) {
        Ok(t) => Ok(t),
        Err(e) => Err((false, e.to_string())),
    }
}

/// What `toml` makes of a document and a top-level key whose value is an
/// array of strings: the strings in order; `None` when the key is absent or
/// holds anything else; or the parser's message.
pub uninterp spec fn toml_strings(doc: Seq<char>, key: Seq<char>) -> Result<Option<Seq<Seq<char>>>, Seq<char>>;

/// What `toml` makes of a document with a top-level key set to an array of
/// strings: the pretty-printed table, or a failure: whether the parser
/// (rather than the printer) failed, and its message.
pub uninterp spec fn toml_with_strings(doc: Seq<char>, key: Seq<char>, values: Seq<Seq<char>>) -> Result<Seq<char>, (bool, Seq<char>)>;

/// Calls `toml::from_str` for a `toml::Table`, then `Table::get`, and reads
/// an array value's elements with `Value::as_str`. The contract names the
/// result `toml_strings`.
#[verifier::external_body]
fn toml_string_array(doc: &str, key: &str) -> (r: Result<Option<Vec<String>>, String>)
    ensures
        (match r {
            Ok(Some(v)) => Ok(Some(strings_view(v@))),
            Ok(None) => Ok(None),
            Err(m) => Err(m@),
        }) == toml_strings(doc@, key@),
{
    match toml::from_str::<toml::Table>(doc) {
        Ok(table) => match table.get(key) {
            Some(toml::Value::Array(a)) => Ok(a.iter().map(|v| v.as_str().map(|e| e.to_owned())).collect()),
            _ => Ok(None),
        },
        Err(e) => Err(e.to_string()),
    }
}

/// Calls `toml::from_str` for a `toml::Table`, `Table::insert` with an array
/// of strings, and `toml::to_string_pretty`. The contract names the result
/// `toml_with_strings`.
#[verifier::external_body]
fn toml_set_strings(doc: &str, key: &str, values: &Vec<String>) -> (r: Result<String, (bool, String)>)
    ensures
        (match r {
            Ok(t) => Ok(t@),
            Err((parse, m)) => Err((parse, m@)),
        }) == toml_with_strings(doc@, key@, strings_view(values@)),
{
    let mut table = match toml::from_str::<toml::Table>(doc) {
        Ok(t) => t,
        Err(e) => return Err((true, e.to_string())),
    };
    table.insert(key.to_owned(), toml::Value::Array(values.iter().map(|v| toml::Value::String(v.clone())).collect()));
    toml::to_string_pretty(&table).map_err(|e| (false, e.to_string()))
}

/// The message of a configuration file that does not parse.
pub open spec fn corrupt_message(path: Seq<char>, m: Seq<char>) -> Seq<char> {
    "config file corrupt: "@ + path + ": "@ + m
}

fn corrupt(path: &str, m: &str) -> (e: DfmError)
    ensures
        e matches DfmError::Other(msg) && msg@ == corrupt_message(path@, m@),
{
    let a = concat_str("config file corrupt: ", path);
    let b = concat_str(a.as_str(), ": ");
    DfmError::Other(concat_str(b.as_str(), m))
}

/// The value of property `name` in the configuration file `path` holding
/// `doc`: `None` when absent; an error naming the file when it does not
/// parse.
pub fn config_property(doc: &str, name: &str, path: &str) -> (r: Result<Option<String>, DfmError>)
    ensures
        match toml_get(doc@, name@) {
            Ok(v) => r matches Ok(x) && opt_view(x) == v,
            Err(m) => r matches Err(DfmError::Other(msg)) && msg@ == corrupt_message(path@, m),
        },
{
    match toml_lookup(doc, name) {
        Ok(v) => Ok(v),
        Err(m) => Err(corrupt(path, m.as_str())),
    }
}

/// A property line: `name = value`.
pub open spec fn property_line(p: (Seq<char>, Seq<char>)) -> Seq<char> {
    p.0 + " = "@ + p.1
}

/// The `name = value` lines of the configuration file `path` holding `doc`,
/// in the table's order; an error naming the file when it does not parse.
pub fn config_properties(doc: &str, path: &str) -> (r: Result<Vec<String>, DfmError>)
    ensures
        match toml_list(doc@) {
            Ok(v) => r matches Ok(x) && strings_view(x@) == v.map_values(|p: (Seq<char>, Seq<char>)| property_line(p)),
            Err(m) => r matches Err(DfmError::Other(msg)) && msg@ == corrupt_message(path@, m),
        },
{
    match toml_entries(doc) {
        Ok(v) => {
            let ghost pv = pairs_view(v@);
            let mut out: Vec<String> = Vec::new();
            let mut i: usize = 0;
            while i < v.len()
                invariant
                    i <= v@.len(),
                    pv == pairs_view(v@),
                    strings_view(out@) == pv.take(i as int).map_values(|p: (Seq<char>, Seq<char>)| property_line(p)),
                decreases v.len() - i,
            {
                let ghost before = strings_view(out@);
                let a = concat_str(v[i].0.as_str(), " = ");
                let line = concat_str(a.as_str(), v[i].1.as_str());
                out.push(line);
                proof {
                    assert(pv[i as int] == (v@[i as int].0@, v@[i as int].1@));
                    assert(line@ == property_line(pv[i as int]));
                    assert(strings_view(out@) =~= before.push(property_line(pv[i as int])));
                    assert(pv.take(i + 1).map_values(|p: (Seq<char>, Seq<char>)| property_line(p))
                        =~= pv.take(i as int).map_values(|p: (Seq<char>, Seq<char>)| property_line(p)).push(property_line(pv[i as int])));
                }
                i = i + 1;
            }
            assert(pv.take(v@.len() as int) =~= pv);
            Ok(out)
        },
        Err(m) => Err(corrupt(path, m.as_str())),
    }
}

/// The configuration file `path` holding `doc`, with property `name` set to
/// the string `value`; an error naming the file when it does not parse, the
/// printer's message when the table cannot be printed.
pub fn config_with_property(doc: &str, name: &str, value: &str, path: &str) -> (r: Result<String, DfmError>)
    ensures
        match toml_with(doc@, name@, value@) {
            Ok(t) => r matches Ok(x) && x@ == t,
            Err((true, m)) => r matches Err(DfmError::Other(msg)) && msg@ == corrupt_message(path@, m),
            Err((false, m)) => r matches Err(DfmError::Other(msg)) && msg@ == m,
        },
{
    match toml_set(doc, name, value) {
        Ok(t) => Ok(t),
        Err((parse, m)) => if parse {
            Err(corrupt(path, m.as_str()))
        } else {
            Err(DfmError::Other(m))
        },
    }
}

// Setting a property

/// The properties of the configuration file.
pub open spec fn known_property(name: Seq<char>) -> bool {
    name == "dot_prefix"@ || name == "symlink_postfix"@ || name == "encrypted_postfix"@
        || name == "force_encryption_for"@ || name == "obtain_password_shell_command"@
        || name == "merge_tool_command"@ || name == "diff_tool_command"@
        || name == "diff_all_tool_command_target"@ || name == "diff_all_tool_command_source"@
        || name == "diff_editable_tool_command"@
}

/// The one array property.
pub open spec fn array_property(name: Seq<char>) -> bool {
    name == "force_encryption_for"@
}

/// A value in the array syntax: `add:`, `rm:` or `rmi:` in front.
pub open spec fn array_syntax(value: Seq<char>) -> bool {
    has_prefix(value, "add:"@) || has_prefix(value, "rm:"@) || has_prefix(value, "rmi:"@)
}

/// The elements of `s` but those equal to `e`, in order.
pub open spec fn without(s: Seq<Seq<char>>, e: Seq<char>) -> Seq<Seq<char>>
    decreases s.len(),
{
    if s.len() == 0 {
        Seq::empty()
    } else {
        without(s.drop_last(), e) + if s.last() == e { Seq::empty() } else { seq![s.last()] }
    }
}

pub open spec fn unknown_property_message(name: Seq<char>) -> Seq<char> {
    "unknown config property "@ + name
}

pub open spec fn not_array_message(name: Seq<char>) -> Seq<char> {
    name + " is not an array: add:, rm: and rmi: are not accepted"@
}

pub open spec fn array_value_message(name: Seq<char>) -> Seq<char> {
    name + " is an array: set it with add:<element>, rm:<element> or rmi:<index>"@
}

pub open spec fn empty_element_message() -> Seq<char> {
    "add: needs a non-empty element"@
}

pub open spec fn no_element_message(name: Seq<char>, e: Seq<char>) -> Seq<char> {
    "no element "@ + e + " in "@ + name
}

pub open spec fn bad_index_message(name: Seq<char>, t: Seq<char>) -> Seq<char> {
    "invalid index "@ + t + " for "@ + name
}

/// An edit of the array `cur` of property `name` in the array syntax:
/// `add:<element>` appends a non-empty element; `rm:<element>` removes every
/// equal element, and at least one; `rmi:<index>` removes the element at a
/// valid 0-based index; a plain value is refused. `Err` carries the message.
pub open spec fn array_edit(cur: Seq<Seq<char>>, value: Seq<char>, name: Seq<char>) -> Result<Seq<Seq<char>>, Seq<char>> {
    if has_prefix(value, "add:"@) {
        if value.len() == 4 { Err(empty_element_message()) } else { Ok(cur.push(value.skip(4))) }
    } else if has_prefix(value, "rmi:"@) {
        match parse_unsigned_spec(value.skip(4), u64::MAX as nat) {
            Some(i) => if i < cur.len() { Ok(cur.remove(i as int)) } else { Err(bad_index_message(name, value.skip(4))) },
            None => Err(bad_index_message(name, value.skip(4))),
        }
    } else if has_prefix(value, "rm:"@) {
        if without(cur, value.skip(3)).len() == cur.len() {
            Err(no_element_message(name, value.skip(3)))
        } else {
            Ok(without(cur, value.skip(3)))
        }
    } else {
        Err(array_value_message(name))
    }
}

fn is_text(a: &str, lit: &str) -> (b: bool)
    ensures
        b == (a@ == lit@),
{
    let x = chars_of(a);
    let y = chars_of(lit);
    chars_eq(x.as_slice(), y.as_slice())
}

fn has_text_prefix(a: &[char], lit: &str) -> (b: bool)
    ensures
        b == has_prefix(a@, lit@),
{
    let y = chars_of(lit);
    let b = starts_with(a, y.as_slice());
    proof {
        if b {
            assert(a@.subrange(0, y@.len() as int) =~= y@);
        }
    }
    b
}

fn is_known_property(name: &str) -> (b: bool)
    ensures
        b == known_property(name@),
{
    is_text(name, "dot_prefix") || is_text(name, "symlink_postfix") || is_text(name, "encrypted_postfix")
        || is_text(name, "force_encryption_for") || is_text(name, "obtain_password_shell_command")
        || is_text(name, "merge_tool_command") || is_text(name, "diff_tool_command")
        || is_text(name, "diff_all_tool_command_target") || is_text(name, "diff_all_tool_command_source")
        || is_text(name, "diff_editable_tool_command")
}

fn without_exec(v: &Vec<String>, e: &[char]) -> (r: Vec<String>)
    ensures
        strings_view(r@) == without(strings_view(v@), e@),
{
    let ghost sv = strings_view(v@);
    let mut out: Vec<String> = Vec::new();
    let mut i: usize = 0;
    while i < v.len()
        invariant
            i <= v@.len(),
            sv == strings_view(v@),
            strings_view(out@) == without(sv.take(i as int), e@),
        decreases v.len() - i,
    {
        let ghost b = strings_view(out@);
        assert(sv.take(i + 1).drop_last() =~= sv.take(i as int));
        assert(sv[i as int] == v@[i as int]@);
        let x = chars_of(v[i].as_str());
        if chars_eq(x.as_slice(), e) {
            assert(strings_view(out@) =~= b + Seq::empty());
        } else {
            out.push(v[i].clone());
            assert(strings_view(out@) =~= b + seq![sv[i as int]]);
        }
        i = i + 1;
    }
    assert(sv.take(v@.len() as int) =~= sv);
    out
}

/// See `array_edit`.
fn edit_array(cur: Vec<String>, value: &str, name: &str) -> (r: Result<Vec<String>, String>)
    ensures
        (match r {
            Ok(v) => Ok(strings_view(v@)),
            Err(m) => Err(m@),
        }) == array_edit(strings_view(cur@), value@, name@),
{
    let vc = chars_of(value);
    let ghost cv = strings_view(cur@);
    if has_text_prefix(vc.as_slice(), "add:") {
        proof {
            reveal_strlit("add:");
        }
        if vc.len() == 4 {
            return Err("add: needs a non-empty element".to_owned());
        }
        let el = slice_to_vec(vc.as_slice(), 4, vc.len());
        assert(el@ =~= value@.skip(4));
        let mut out = cur;
        out.push(string_of(el.as_slice()));
        assert(strings_view(out@) =~= cv.push(value@.skip(4)));
        return Ok(out);
    }
    if has_text_prefix(vc.as_slice(), "rmi:") {
        proof {
            reveal_strlit("rmi:");
        }
        let t = slice_to_vec(vc.as_slice(), 4, vc.len());
        assert(t@ =~= value@.skip(4));
        let ts = string_of(t.as_slice());
        let bad = concat_str(concat_str(concat_str("invalid index ", ts.as_str()).as_str(), " for ").as_str(), name);
        match parse_unsigned(t.as_slice(), u64::MAX) {
            Some(i) => {
                if i < cur.len() as u64 {
                    let mut out = cur;
                    let ix = i as usize;
                    out.remove(ix);
                    assert(strings_view(out@) =~= cv.remove(i as int));
                    return Ok(out);
                }
                return Err(bad);
            },
            None => return Err(bad),
        }
    }
    if has_text_prefix(vc.as_slice(), "rm:") {
        proof {
            reveal_strlit("rm:");
        }
        let el = slice_to_vec(vc.as_slice(), 3, vc.len());
        assert(el@ =~= value@.skip(3));
        let kept = without_exec(&cur, el.as_slice());
        if kept.len() == cur.len() {
            assert(strings_view(kept@).len() == kept@.len());
            let es = string_of(el.as_slice());
            return Err(concat_str(concat_str(concat_str("no element ", es.as_str()).as_str(), " in ").as_str(), name));
        }
        assert(strings_view(kept@).len() == kept@.len());
        return Ok(kept);
    }
    Err(concat_str(name, " is an array: set it with add:<element>, rm:<element> or rmi:<index>"))
}

/// What `config --set` does to the configuration file `path` holding `doc`:
/// an unknown property is refused; the array property takes an edit in the
/// array syntax (see `array_edit`; a value that is no array of strings counts
/// as empty); any other property takes a plain string, and the array syntax
/// is refused for it.
pub fn config_set(doc: &str, name: &str, value: &str, path: &str) -> (r: Result<String, DfmError>)
    ensures
        !known_property(name@) ==> (r matches Err(DfmError::InvalidInput(m)) && m@ == unknown_property_message(name@)),
        known_property(name@) && array_property(name@) ==> match toml_strings(doc@, name@) {
            Err(m) => r matches Err(DfmError::Other(msg)) && msg@ == corrupt_message(path@, m),
            Ok(cur) => match array_edit(match cur { Some(c) => c, None => Seq::empty() }, value@, name@) {
                Err(m) => r matches Err(DfmError::InvalidInput(msg)) && msg@ == m,
                Ok(new) => match toml_with_strings(doc@, name@, new) {
                    Ok(t) => r matches Ok(x) && x@ == t,
                    Err((true, m)) => r matches Err(DfmError::Other(msg)) && msg@ == corrupt_message(path@, m),
                    Err((false, m)) => r matches Err(DfmError::Other(msg)) && msg@ == m,
                },
            },
        },
        known_property(name@) && !array_property(name@) && array_syntax(value@)
            ==> (r matches Err(DfmError::InvalidInput(m)) && m@ == not_array_message(name@)),
        known_property(name@) && !array_property(name@) && !array_syntax(value@) ==> match toml_with(doc@, name@, value@) {
            Ok(t) => r matches Ok(x) && x@ == t,
            Err((true, m)) => r matches Err(DfmError::Other(msg)) && msg@ == corrupt_message(path@, m),
            Err((false, m)) => r matches Err(DfmError::Other(msg)) && msg@ == m,
        },
{
    if !is_known_property(name) {
        return Err(DfmError::InvalidInput(concat_str("unknown config property ", name)));
    }
    if is_text(name, "force_encryption_for") {
        let cur = match toml_string_array(doc, name) {
            Ok(Some(v)) => v,
            Ok(None) => {
                let v: Vec<String> = Vec::new();
                assert(strings_view(v@) =~= Seq::<Seq<char>>::empty());
                v
            },
            Err(m) => return Err(corrupt(path, m.as_str())),
        };
        let new = match edit_array(cur, value, name) {
            Ok(v) => v,
            Err(m) => return Err(DfmError::InvalidInput(m)),
        };
        return match toml_set_strings(doc, name, &new) {
            Ok(t) => Ok(t),
            Err((parse, m)) => if parse {
                Err(corrupt(path, m.as_str()))
            } else {
                Err(DfmError::Other(m))
            },
        };
    }
    let vc = chars_of(value);
    if has_text_prefix(vc.as_slice(), "add:") || has_text_prefix(vc.as_slice(), "rm:") || has_text_prefix(vc.as_slice(), "rmi:") {
        return Err(DfmError::InvalidInput(concat_str(name, " is not an array: add:, rm: and rmi: are not accepted")));
    }
    config_with_property(doc, name, value, path)
}

} // verus!
