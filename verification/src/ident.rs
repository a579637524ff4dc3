//! Validation of destination names (tables, collections, cache namespaces).
//!
//! A destination name is interpolated into constructed queries, so adapters
//! must reject unsafe names at configuration time, before any storage call.
use vstd::prelude::*;
use vstd::string::StringExecFns;

verus! {

/// A character allowed anywhere in a loose destination name: ASCII
/// alphanumerics, hyphen and underscore.
pub open spec fn is_table_name_char(c: char) -> bool {
    ||| 'a' <= c && c <= 'z'
    ||| 'A' <= c && c <= 'Z'
    ||| '0' <= c && c <= '9'
    ||| c == '-'
    ||| c == '_'
}

/// Whether `name` is a safe destination name under the loose rule:
/// non-empty, ASCII alphanumerics plus hyphen and underscore.
pub open spec fn spec_valid_table_name(name: Seq<char>) -> bool {
    name.len() > 0 && forall|i: int| 0 <= i < name.len() ==> is_table_name_char(#[trigger] name[i])
}

/// Checks a destination name against the loose rule: non-empty and made of
/// ASCII alphanumerics, hyphens and underscores only.
pub fn is_valid_table_name(name: &str) -> (r: bool)
    ensures
        r == spec_valid_table_name(name@),
{
    let len = name.unicode_len();
    if len == 0 {
        return false;
    }
    let mut i: usize = 0;
    while i < len
        invariant
            0 <= i <= len,
            len == name@.len(),
            forall|j: int| 0 <= j < i ==> is_table_name_char(#[trigger] name@[j]),
        decreases len - i,
    {
        let c = name.get_char(i);
        let ok = (c >= 'a' && c <= 'z') || (c >= 'A' && c <= 'Z') || (c >= '0' && c <= '9') || c
            == '-' || c == '_';
        if !ok {
            return false;
        }
        i = i + 1;
    }
    true
}

/// Whether a character has the Unicode alphabetic property. Named rather
/// than spelled out: the property is a function of the character alone, but
/// its table belongs to the standard library.
pub uninterp spec fn char_alphabetic(c: char) -> bool;

/// Whether a character is Unicode alphanumeric. Named for the same reason as
/// [`char_alphabetic`].
pub uninterp spec fn char_alphanumeric(c: char) -> bool;

/// Relies on char::is_alphabetic: the Unicode alphabetic property, a
/// function of the character alone.
#[verifier::external_body]
fn is_alphabetic_char(c: char) -> (r: bool)
    ensures
        r == char_alphabetic(c),
{
    c.is_alphabetic()
}

/// Relies on char::is_alphanumeric: the Unicode alphanumeric property, a
/// function of the character alone.
#[verifier::external_body]
fn is_alphanumeric_char(c: char) -> (r: bool)
    ensures
        r == char_alphanumeric(c),
{
    c.is_alphanumeric()
}

/// A character that may begin a strict SQL identifier: a letter (including
/// letters with diacritical marks and non-Latin letters) or an underscore.
pub open spec fn is_identifier_start(c: char) -> bool {
    char_alphabetic(c) || c == '_'
}

/// A character allowed anywhere in a strict SQL identifier: a letter, a
/// digit, an underscore or a dollar sign.
pub open spec fn is_identifier_char(c: char) -> bool {
    char_alphanumeric(c) || c == '_' || c == '$'
}

/// Whether `name` is a safe destination name under the stricter SQL rule:
/// non-empty, beginning with a letter or underscore, every character a
/// letter, digit, underscore or dollar sign.
pub open spec fn spec_valid_identifier(name: Seq<char>) -> bool {
    &&& name.len() > 0
    &&& is_identifier_start(name[0])
    &&& forall|i: int| 0 <= i < name.len() ==> is_identifier_char(#[trigger] name[i])
}

/// Checks a destination name against the stricter SQL-identifier rule: it
/// must start with a letter or underscore, and every character must be a
/// letter, digit, underscore or dollar sign.
pub fn is_valid_identifier(name: &str) -> (r: bool)
    ensures
        r == spec_valid_identifier(name@),
{
    let len = name.unicode_len();
    if len == 0 {
        return false;
    }
    let first = name.get_char(0);
    if !(is_alphabetic_char(first) || first == '_') {
        return false;
    }
    let mut i: usize = 0;
    while i < len
        invariant
            0 <= i <= len,
            len == name@.len(),
            is_identifier_start(name@[0]),
            forall|j: int| 0 <= j < i ==> is_identifier_char(#[trigger] name@[j]),
        decreases len - i,
    {
        let c = name.get_char(i);
        let ok = is_alphanumeric_char(c) || c == '_' || c == '$';
        if !ok {
            return false;
        }
        i = i + 1;
    }
    true
}

/// An invalid destination name was rejected at configuration time, before
/// any storage call.
#[derive(Debug, PartialEq, Eq)]
pub struct ConfigError;

impl ConfigError {
    /// A short description of the error.
    pub fn message(&self) -> (r: String)
        ensures
            r@ == "invalid destination name"@,
    {
        String::from_str("invalid destination name")
    }
}

/// A validated destination name (table, collection or cache namespace),
/// accepted under the loose rule before it may appear in any constructed
/// query.
pub struct TableName {
    name: String,
}

impl View for TableName {
    type V = Seq<char>;

    closed spec fn view(&self) -> Seq<char> {
        self.name@
    }
}

impl TableName {
    /// A validated name always satisfies the loose rule.
    pub closed spec fn wf(self) -> bool {
        spec_valid_table_name(self.name@)
    }

    /// Accepts a destination name only under the loose rule, rejecting
    /// unsafe names at configuration time rather than at query time.
    pub fn new(name: String) -> (r: Result<TableName, ConfigError>)
        ensures
            match r {
                Ok(t) => spec_valid_table_name(name@) && t@ == name@ && t.wf(),
                Err(_) => !spec_valid_table_name(name@),
            },
    {
        if is_valid_table_name(name.as_str()) {
            Ok(TableName { name })
        } else {
            Err(ConfigError)
        }
    }

    /// The validated name, for interpolation into a query.
    pub fn as_str(&self) -> (r: &str)
        ensures
            r@ == self@,
    {
        self.name.as_str()
    }
}

/// A validated destination name under the stricter SQL-identifier rule, for
/// engines that take schema and table names of that shape; like
/// [`TableName`], it is accepted at configuration time, before any query is
/// constructed.
pub struct SqlIdentifier {
    name: String,
}

impl View for SqlIdentifier {
    type V = Seq<char>;

    closed spec fn view(&self) -> Seq<char> {
        self.name@
    }
}

impl SqlIdentifier {
    /// A validated name always satisfies the strict rule.
    pub closed spec fn wf(self) -> bool {
        spec_valid_identifier(self.name@)
    }

    /// Accepts a destination name only under the strict SQL-identifier rule,
    /// rejecting unsafe names at configuration time rather than at query
    /// time.
    pub fn new(name: String) -> (r: Result<SqlIdentifier, ConfigError>)
        ensures
            match r {
                Ok(t) => spec_valid_identifier(name@) && t@ == name@ && t.wf(),
                Err(_) => !spec_valid_identifier(name@),
            },
    {
        if is_valid_identifier(name.as_str()) {
            Ok(SqlIdentifier { name })
        } else {
            Err(ConfigError)
        }
    }

    /// The validated name, for interpolation into a query.
    pub fn as_str(&self) -> (r: &str)
        ensures
            r@ == self@,
    {
        self.name.as_str()
    }
}

} // verus!
