use vstd::prelude::*;

use crate::value::{tree_wf, Tree, Value};
use toml::Value as TomlValue;

verus! {

/// A configuration source backed by one TOML file; reading the file is the
/// caller's part, [`parse_toml_source`] turns its text into a value tree.
pub struct FileSource {
    pub path: String,
}

impl FileSource {
    pub fn new(path: String) -> (r: Self)
        ensures
            r.path@ == path@,
    {
        Self { path }
    }
}

#[verifier::external_type_specification]
#[verifier::external_body]
pub struct ExTomlValue(TomlValue);

/// The tree that a well-formed TOML document denotes, or nothing where the
/// text is not one.
pub uninterp spec fn toml_document(s: Seq<char>) -> Option<Tree>;

/// The tree that a parsed TOML value holds.
pub uninterp spec fn toml_contents(v: TomlValue) -> Tree;

/// Relies on `toml::from_str::<toml::Value>`: it parses one TOML document,
/// its result depends on the text alone, and every table in a parsed value
/// has distinct keys.
#[verifier::external_body]
fn toml_from_str(s: &str) -> (r: Option<TomlValue>)
    ensures
        match r {
            Some(v) => toml_document(s@) == Some(toml_contents(v)) && tree_wf(toml_contents(v)),
            None => toml_document(s@) is None,
        },
{
    toml::from_str::<TomlValue>(s).ok()
}

/// Relies on `toml::Value` itself: each variant is moved into the library's
/// own tree one for one, a float as its bit pattern, a datetime as its text.
#[verifier::external_body]
fn value_from_toml(v: TomlValue) -> (r: Value)
    ensures
        r@ == toml_contents(v),
{
    match v {
        TomlValue::String(s) => Value::String(s),
        TomlValue::Integer(i) => Value::Integer(i),
        TomlValue::Float(x) => Value::Float(x.to_bits()),
        TomlValue::Boolean(b) => Value::Boolean(b),
        TomlValue::Datetime(d) => Value::Datetime(d.to_string()),
        TomlValue::Array(a) => Value::Array(a.into_iter().map(value_from_toml).collect()),
        TomlValue::Table(t) => Value::Table(
            t.into_iter().map(|(k, x)| (k, value_from_toml(x))).collect(),
        ),
    }
}

/// Parses the text of one TOML document into a value tree: `Some` exactly on
/// well-formed documents that denote a table, and the tree is then that
/// well-formed table. (The parser can return a bare non-table value for a
/// few contrived documents; those are rejected here like malformed text.)
pub fn parse_toml_source(text: &str) -> (r: Option<Value>)
    ensures
        match r {
            Some(v) => toml_document(text@) == Some(v@) && v@ is Table && tree_wf(v@),
            None => toml_document(text@) is None || !(toml_document(text@)->Some_0 is Table),
        },
{
    match toml_from_str(text) {
        Some(parsed) => {
            let v = value_from_toml(parsed);
            match &v {
                Value::Table(_) => Some(v),
                _ => None,
            }
        },
        None => None,
    }
}

} // verus!
