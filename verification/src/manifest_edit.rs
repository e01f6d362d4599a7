//! Edits of `module.toml` that keep the rest of the file as it was written.
//! Reading and printing the document is `toml_edit`'s work; which edits are
//! made, and what is answered, is decided here.
use vstd::prelude::*;
use crate::install::opt_view;

verus! {

#[verifier::external_type_specification]
#[verifier::external_body]
pub struct ExTomlError(toml_edit::TomlError);

/// What the top level of a document holds under a key.
#[derive(Clone, Copy, Debug, PartialEq, Eq, Structural)]
pub enum EntryKind {
    Absent,
    Table,
    InlineTable,
    ArrayOfTables,
    OtherValue,
}

/// What an array of the document holds: missing (or of another type), an
/// array of tables, or an array of values, with the number of its elements.
#[derive(Clone, Copy, Debug, PartialEq, Eq, Structural)]
pub enum ArrayShape {
    Missing,
    Tables(usize),
    Values(usize),
}

/// Whether `toml_edit` reads the text as a document.
pub uninterp spec fn toml_parses(text: Seq<char>) -> bool;

/// What the document's top level holds under `key`.
pub uninterp spec fn toml_entry_kind(text: Seq<char>, key: Seq<char>) -> EntryKind;

/// The document printed after `document[table][key]` was set to the string
/// `value`.
pub uninterp spec fn toml_with_value_at(text: Seq<char>, table: Seq<char>, key: Seq<char>, value: Seq<char>) -> Seq<char>;

/// What `table.key` holds: `None` where `table` or its `key` is missing,
/// `Some(None)` where it is not a string.
pub uninterp spec fn toml_string_at(text: Seq<char>, table: Seq<char>, key: Seq<char>) -> Option<Option<Seq<char>>>;

/// The shape of the array `table.key`.
pub uninterp spec fn toml_array_at(text: Seq<char>, table: Seq<char>, key: Seq<char>) -> ArrayShape;

/// The string `field` of the element at `index` of the array `table.key`,
/// where it has one.
pub uninterp spec fn toml_element_string(text: Seq<char>, table: Seq<char>, key: Seq<char>, index: usize, field: Seq<char>) -> Option<Seq<char>>;

/// The document printed after `field` of the table at `index` of the array
/// of tables `table.key` was set to the string `value`.
pub uninterp spec fn toml_with_table_element_value(text: Seq<char>, table: Seq<char>, key: Seq<char>, index: usize, field: Seq<char>, value: Seq<char>) -> Seq<char>;

/// The document printed after the string `value` was inserted as `field`
/// into the inline table at `index` of the array `table.key`.
pub uninterp spec fn toml_with_inline_element_value(text: Seq<char>, table: Seq<char>, key: Seq<char>, index: usize, field: Seq<char>, value: Seq<char>) -> Seq<char>;

/// The document printed as read.
pub uninterp spec fn toml_reprinted(text: Seq<char>) -> Seq<char>;

/// The document printed after `key` was replaced by a table of the given
/// (key, string) pairs, in order.
pub uninterp spec fn toml_with_table(text: Seq<char>, key: Seq<char>, pairs: Seq<(Seq<char>, Seq<char>)>) -> Seq<char>;

/// `toml_edit`: parses the text and tells which kind of item the top-level
/// table holds under `key` (`Table::get`, then the item's variant).
#[verifier::external_body]
fn entry_kind(content: &str, key: &str) -> (r: Result<EntryKind, toml_edit::TomlError>)
    ensures
        r is Ok <==> toml_parses(content@),
        r matches Ok(k) ==> k == toml_entry_kind(content@, key@),
{
    let document = content.parse::<toml_edit::DocumentMut>()?;
    Ok(match document.get(key) {
        None => EntryKind::Absent,
        Some(toml_edit::Item::Table(_)) => EntryKind::Table,
        Some(toml_edit::Item::ArrayOfTables(_)) => EntryKind::ArrayOfTables,
        Some(toml_edit::Item::Value(toml_edit::Value::InlineTable(_))) => EntryKind::InlineTable,
        Some(_) => EntryKind::OtherValue,
    })
}

/// Whether `document[table][key]` can be assigned without a panic:
/// `toml_edit` indexes into an absent entry, a table or an inline table.
pub open spec fn accepts_name(kind: EntryKind) -> bool {
    kind is Absent || kind is Table || kind is InlineTable
}

/// `toml_edit`: parses the text, assigns `document[table][key]` (`IndexMut`
/// and `value`) and prints the document. The index panics on a `table` of
/// another kind, which `requires` leaves out.
#[verifier::external_body]
fn with_value_at(content: &str, table: &str, key: &str, value: &str) -> (r: Result<String, toml_edit::TomlError>)
    requires
        toml_parses(content@) ==> accepts_name(toml_entry_kind(content@, table@)),
    ensures
        r is Ok <==> toml_parses(content@),
        r matches Ok(s) ==> s@ == toml_with_value_at(content@, table@, key@, value@),
{
    let mut document = content.parse::<toml_edit::DocumentMut>()?;
    document[table][key] = toml_edit::value(value);
    Ok(document.to_string())
}

/// `toml_edit`: parses the text and reads `table.key` as a string
/// (`Item::get` twice, then `as_str`).
#[verifier::external_body]
fn string_at(content: &str, table: &str, key: &str) -> (r: Result<Option<Option<String>>, toml_edit::TomlError>)
    ensures
        r is Ok <==> toml_parses(content@),
        r matches Ok(e) ==> match e {
            Some(n) => toml_string_at(content@, table@, key@) == Some(opt_view(n)),
            None => toml_string_at(content@, table@, key@) is None,
        },
{
    let document = content.parse::<toml_edit::DocumentMut>()?;
    Ok(document.get(table).and_then(|t| t.get(key)).map(|item| item.as_str().map(String::from)))
}

/// `toml_edit`: parses the text and tells whether `table.key` is an array
/// of tables or an array of values, and its length.
#[verifier::external_body]
fn array_at(content: &str, table: &str, key: &str) -> (r: Result<ArrayShape, toml_edit::TomlError>)
    ensures
        r is Ok <==> toml_parses(content@),
        r matches Ok(l) ==> l == toml_array_at(content@, table@, key@),
{
    let document = content.parse::<toml_edit::DocumentMut>()?;
    Ok(match document.get(table).and_then(|t| t.get(key)) {
        Some(toml_edit::Item::ArrayOfTables(tables)) => ArrayShape::Tables(tables.len()),
        Some(toml_edit::Item::Value(toml_edit::Value::Array(array))) => ArrayShape::Values(array.len()),
        _ => ArrayShape::Missing,
    })
}

/// `toml_edit`: parses the text and reads the string `field` of the element
/// at `index` of the array `table.key`: of the table there, or of the
/// inline table there.
#[verifier::external_body]
fn element_string(content: &str, table: &str, key: &str, index: usize, field: &str) -> (r: Result<Option<String>, toml_edit::TomlError>)
    ensures
        r is Ok <==> toml_parses(content@),
        r matches Ok(n) ==> opt_view(n) == toml_element_string(content@, table@, key@, index, field@),
{
    let document = content.parse::<toml_edit::DocumentMut>()?;
    Ok(match document.get(table).and_then(|t| t.get(key)) {
        Some(toml_edit::Item::ArrayOfTables(tables)) => {
            tables.get(index).and_then(|t| t.get(field)).and_then(|v| v.as_str()).map(String::from)
        },
        Some(toml_edit::Item::Value(toml_edit::Value::Array(array))) => {
            array.get(index).and_then(|v| v.as_inline_table()).and_then(|t| t.get(field)).and_then(|v| v.as_str()).map(String::from)
        },
        _ => None,
    })
}

/// `toml_edit`: parses the text, sets `field` of the table at `index` of
/// the array of tables `table.key` (`Table`'s `IndexMut`), and prints the
/// document; where there is no such table nothing is set.
#[verifier::external_body]
fn with_table_element_value(content: &str, table: &str, key: &str, index: usize, field: &str, value: &str) -> (r: Result<String, toml_edit::TomlError>)
    ensures
        r is Ok <==> toml_parses(content@),
        r matches Ok(s) ==> s@ == toml_with_table_element_value(content@, table@, key@, index, field@, value@),
{
    let mut document = content.parse::<toml_edit::DocumentMut>()?;
    let array = document.get_mut(table).and_then(|t| t.get_mut(key)).and_then(|d| d.as_array_of_tables_mut());
    if let Some(element) = array.and_then(|a| a.get_mut(index)) {
        element[field] = toml_edit::value(value);
    }
    Ok(document.to_string())
}

/// `toml_edit`: parses the text, inserts `field` into the inline table at
/// `index` of the array `table.key` (`InlineTable::insert`), and prints the
/// document; where there is no such inline table nothing is inserted.
#[verifier::external_body]
fn with_inline_element_value(content: &str, table: &str, key: &str, index: usize, field: &str, value: &str) -> (r: Result<String, toml_edit::TomlError>)
    ensures
        r is Ok <==> toml_parses(content@),
        r matches Ok(s) ==> s@ == toml_with_inline_element_value(content@, table@, key@, index, field@, value@),
{
    let mut document = content.parse::<toml_edit::DocumentMut>()?;
    let array = document.get_mut(table).and_then(|t| t.get_mut(key)).and_then(|d| d.as_array_mut());
    if let Some(element) = array.and_then(|a| a.get_mut(index)).and_then(|v| v.as_inline_table_mut()) {
        element.insert(field, toml_edit::Value::from(value));
    }
    Ok(document.to_string())
}

/// `toml_edit`: parses the text and prints the document.
#[verifier::external_body]
fn reprinted(content: &str) -> (r: Result<String, toml_edit::TomlError>)
    ensures
        r is Ok <==> toml_parses(content@),
        r matches Ok(s) ==> s@ == toml_reprinted(content@),
{
    let document = content.parse::<toml_edit::DocumentMut>()?;
    Ok(document.to_string())
}

/// The (key, value) pairs as characters.
pub open spec fn pairs_view(v: Seq<(String, String)>) -> Seq<(Seq<char>, Seq<char>)> {
    v.map_values(|p: (String, String)| (p.0@, p.1@))
}

/// `toml_edit`: parses the text, replaces `key` by a new table of the given
/// (key, string) pairs (`Table`'s `FromIterator`), and prints the document.
#[verifier::external_body]
fn with_table(content: &str, key: &str, pairs: &Vec<(String, String)>) -> (r: Result<String, toml_edit::TomlError>)
    ensures
        r is Ok <==> toml_parses(content@),
        r matches Ok(s) ==> s@ == toml_with_table(content@, key@, pairs_view(pairs@)),
{
    let mut document = content.parse::<toml_edit::DocumentMut>()?;
    let table: toml_edit::Table = pairs.iter().map(|(k, v)| (k.as_str(), toml_edit::value(v.as_str()))).collect();
    document[key] = toml_edit::Item::Table(table);
    Ok(document.to_string())
}

/// The characters of an optional text.
pub open spec fn text_option(o: Option<&str>) -> Option<Seq<char>> {
    match o {
        Some(t) => Some(t@),
        None => None,
    }
}

/// The manifest printed after `module.name` was set to `name`.
pub open spec fn toml_with_module_name(text: Seq<char>, name: Seq<char>) -> Seq<char> {
    toml_with_value_at(text, "module"@, "name"@, name)
}

/// What `module.name` holds.
pub open spec fn toml_module_name(text: Seq<char>) -> Option<Option<Seq<char>>> {
    toml_string_at(text, "module"@, "name"@)
}

/// The shape of `module.deps`.
pub open spec fn toml_dependency_list(text: Seq<char>) -> ArrayShape {
    toml_array_at(text, "module"@, "deps"@)
}

/// The `name` of the dependency at `index`, where it has one.
pub open spec fn toml_dependency_name(text: Seq<char>, index: usize) -> Option<Seq<char>> {
    toml_element_string(text, "module"@, "deps"@, index, "name"@)
}

/// The entries of a `[source]` table: the url, then the branch and the pin
/// where given.
pub open spec fn source_pairs(url: Seq<char>, branch: Option<Seq<char>>, pin: Option<Seq<char>>) -> Seq<(Seq<char>, Seq<char>)> {
    seq![("url"@, url)]
        + (match branch { Some(b) => seq![("branch"@, b)], None => Seq::empty() })
        + (match pin { Some(p) => seq![("pin"@, p)], None => Seq::empty() })
}

/// The manifest printed after its `source` was replaced by the table of the
/// given url, branch and pin.
pub open spec fn toml_with_source(text: Seq<char>, url: Seq<char>, branch: Option<Seq<char>>, pin: Option<Seq<char>>) -> Seq<char> {
    toml_with_table(text, "source"@, source_pairs(url, branch, pin))
}

/// The manifest printed after `source.pin` was set, where `source` is a
/// table; printed as read otherwise.
pub open spec fn toml_with_source_pin(text: Seq<char>, pin: Seq<char>) -> Seq<char> {
    if toml_entry_kind(text, "source"@) is Table {
        toml_with_value_at(text, "source"@, "pin"@, pin)
    } else {
        toml_reprinted(text)
    }
}

/// The message for a manifest that `toml_edit` does not read.
pub open spec fn parse_failure() -> Seq<char> {
    "Failed to parse TOML"@
}

/// Sets `module.name` to `new_name`, keeping the rest of the manifest.
/// `requires` leaves out a `module` that is neither a table nor absent, on
/// which the assignment panics; `set_module_name_checked` takes every input.
pub fn set_module_name(content: &str, new_name: &str) -> (r: Result<String, String>)
    requires
        toml_parses(content@) ==> accepts_name(toml_entry_kind(content@, "module"@)),
    ensures
        r is Err <==> !toml_parses(content@),
        r matches Err(e) ==> e@ == parse_failure(),
        r matches Ok(s) ==> s@ == toml_with_module_name(content@, new_name@),
{
    match with_value_at(content, "module", "name", new_name) {
        Ok(s) => Ok(s),
        Err(_) => Err("Failed to parse TOML".to_string()),
    }
}

/// `set_module_name` on every input: `None` where `module` holds something
/// that cannot take a name.
pub fn set_module_name_checked(content: &str, new_name: &str) -> (r: Option<Result<String, String>>)
    ensures
        r is None <==> toml_parses(content@) && !accepts_name(toml_entry_kind(content@, "module"@)),
        r matches Some(x) ==> {
            &&& (x is Err <==> !toml_parses(content@))
            &&& (x matches Err(e) ==> e@ == parse_failure())
            &&& (x matches Ok(s) ==> s@ == toml_with_module_name(content@, new_name@))
        },
{
    match entry_kind(content, "module") {
        Err(_) => Some(Err("Failed to parse TOML".to_string())),
        Ok(kind) => {
            if matches!(kind, EntryKind::Absent | EntryKind::Table | EntryKind::InlineTable) {
                Some(set_module_name(content, new_name))
            } else {
                None
            }
        },
    }
}

/// Reads the module's name from a manifest. `requires` leaves out a manifest
/// without `module.name`, on which the index panics; `toml_name_checked`
/// takes every input.
pub fn toml_name(content: &str) -> (r: Result<String, String>)
    requires
        toml_parses(content@) ==> toml_module_name(content@) is Some,
    ensures
        r is Err <==> !toml_parses(content@) || toml_module_name(content@) == Some(None::<Seq<char>>),
        r matches Err(e) ==> e@ == if toml_parses(content@) { "name field not found"@ } else { parse_failure() },
        r matches Ok(n) ==> toml_module_name(content@) == Some(Some(n@)),
{
    match string_at(content, "module", "name") {
        Err(_) => Err("Failed to parse TOML".to_string()),
        Ok(Some(Some(n))) => Ok(n),
        Ok(_) => Err("name field not found".to_string()),
    }
}

/// `toml_name` on every input: `None` where `module.name` is missing.
pub fn toml_name_checked(content: &str) -> (r: Option<Result<String, String>>)
    ensures
        r is None <==> toml_parses(content@) && toml_module_name(content@) is None,
        r matches Some(x) ==> {
            &&& (x is Err <==> !toml_parses(content@) || toml_module_name(content@) == Some(None::<Seq<char>>))
            &&& (x matches Err(e) ==> e@ == if toml_parses(content@) { "name field not found"@ } else { parse_failure() })
            &&& (x matches Ok(n) ==> toml_module_name(content@) == Some(Some(n@)))
        },
{
    match string_at(content, "module", "name") {
        Ok(None) => None,
        _ => Some(toml_name(content)),
    }
}

/// The indices below `n` of the dependencies named `old`, in order.
pub open spec fn named_dependencies(text: Seq<char>, n: nat, old: Seq<char>) -> Seq<usize>
    decreases n,
{
    if n == 0 || n > usize::MAX {
        Seq::empty()
    } else {
        let rest = named_dependencies(text, (n - 1) as nat, old);
        if toml_dependency_name(text, (n - 1) as usize) == Some(old) {
            rest.push((n - 1) as usize)
        } else {
            rest
        }
    }
}

/// The text after renaming, one after the other, the dependencies at the
/// given indices; `tables` tells which kind of element they are. `None` where
/// a text on the way is not read as a document.
pub open spec fn renamed_at(text: Seq<char>, indices: Seq<usize>, name: Seq<char>, tables: bool) -> Option<Seq<char>>
    decreases indices.len(),
{
    if indices.len() == 0 {
        Some(text)
    } else {
        match renamed_at(text, indices.drop_last(), name, tables) {
            None => None,
            Some(t) => if !toml_parses(t) {
                None
            } else if tables {
                Some(toml_with_table_element_value(t, "module"@, "deps"@, indices.last(), "name"@, name))
            } else {
                Some(toml_with_inline_element_value(t, "module"@, "deps"@, indices.last(), "name"@, name))
            },
        }
    }
}

/// What renaming the dependency `old` to `new` gives: the document with each
/// dependency named `old` renamed, or printed as read where none is.
pub open spec fn renamed_dependency(text: Seq<char>, old: Seq<char>, new: Seq<char>) -> Option<Seq<char>> {
    if !toml_parses(text) {
        None
    } else {
        match toml_dependency_list(text) {
            ArrayShape::Missing => Some(toml_reprinted(text)),
            ArrayShape::Tables(n) => {
                let indices = named_dependencies(text, n as nat, old);
                if indices.len() == 0 { Some(toml_reprinted(text)) } else { renamed_at(text, indices, new, true) }
            },
            ArrayShape::Values(n) => {
                let indices = named_dependencies(text, n as nat, old);
                if indices.len() == 0 { Some(toml_reprinted(text)) } else { renamed_at(text, indices, new, false) }
            },
        }
    }
}

proof fn lemma_named_prefix(text: Seq<char>, k: nat, m: nat, old: Seq<char>)
    requires
        k <= m <= usize::MAX,
    ensures
        named_dependencies(text, k, old).is_prefix_of(named_dependencies(text, m, old)),
    decreases m - k,
{
    if k < m {
        lemma_named_prefix(text, k, (m - 1) as nat, old);
        let a = named_dependencies(text, k, old);
        let b = named_dependencies(text, (m - 1) as nat, old);
        let c = named_dependencies(text, m, old);
        if c != b {
            assert(c == b.push((m - 1) as usize));
            assert forall|j: int| 0 <= j < a.len() implies c[j] == a[j] by {
                assert(b[j] == a[j]);
            }
        }
    }
}

proof fn lemma_renamed_stays_none(text: Seq<char>, s: Seq<usize>, t: Seq<usize>, name: Seq<char>, tables: bool)
    requires
        s.is_prefix_of(t),
        renamed_at(text, s, name, tables) is None,
    ensures
        renamed_at(text, t, name, tables) is None,
    decreases t.len(),
{
    if t.len() > s.len() {
        assert(s.is_prefix_of(t.drop_last()));
        lemma_renamed_stays_none(text, s, t.drop_last(), name, tables);
    } else {
        assert(s =~= t);
    }
}

/// Renames the dependency `old` to `new` in a manifest's `module.deps`,
/// whether it is written as an array of tables or of inline tables.
pub fn rename_dep(content: &str, old_name: &str, new_name: &str) -> (r: Result<String, String>)
    ensures
        match r {
            Ok(s) => renamed_dependency(content@, old_name@, new_name@) == Some(s@),
            Err(e) => renamed_dependency(content@, old_name@, new_name@) is None && e@ == parse_failure(),
        },
{
    let list = match array_at(content, "module", "deps") {
        Ok(l) => l,
        Err(_) => return Err("Failed to parse TOML".to_string()),
    };
    let (n, tables) = match list {
        ArrayShape::Missing => (0usize, true),
        ArrayShape::Tables(n) => (n, true),
        ArrayShape::Values(n) => (n, false),
    };
    let ghost indices_all = named_dependencies(content@, n as nat, old_name@);
    let mut current: Option<String> = None;
    let mut i: usize = 0;
    while i < n
        invariant
            toml_parses(content@),
            list == toml_dependency_list(content@),
            list is Missing ==> n == 0,
            list matches ArrayShape::Tables(m) ==> n == m && tables,
            list matches ArrayShape::Values(m) ==> n == m && !tables,
            i <= n,
            indices_all == named_dependencies(content@, n as nat, old_name@),
            current is None <==> named_dependencies(content@, i as nat, old_name@).len() == 0,
            current matches Some(t) ==> renamed_at(content@, named_dependencies(content@, i as nat, old_name@), new_name@, tables) == Some(t@),
        decreases n - i,
    {
        let name = match element_string(content, "module", "deps", i, "name") {
            Ok(x) => x,
            Err(_) => return Err("Failed to parse TOML".to_string()),
        };
        let ghost before = named_dependencies(content@, i as nat, old_name@);
        assert(named_dependencies(content@, (i + 1) as nat, old_name@) == if opt_view(name) == Some(old_name@) { before.push(i) } else { before });
        let matched = match &name {
            Some(x) => crate::text::str_equal(x.as_str(), old_name),
            None => false,
        };
        if matched {
            let ghost after = before.push(i);
            assert(after.drop_last() == before);
            let edited = {
                let text: &str = match &current {
                    Some(t) => t.as_str(),
                    None => content,
                };
                proof {
                    if current is None {
                        assert(renamed_at(content@, before, new_name@, tables) == Some(content@));
                    }
                }
                if tables {
                    with_table_element_value(text, "module", "deps", i, "name", new_name)
                } else {
                    with_inline_element_value(text, "module", "deps", i, "name", new_name)
                }
            };
            match edited {
                Ok(t) => {
                    current = Some(t);
                },
                Err(_) => {
                    proof {
                        let after = before.push(i);
                        assert(after.drop_last() =~= before);
                        lemma_named_prefix(content@, (i + 1) as nat, n as nat, old_name@);
                        lemma_renamed_stays_none(content@, after, indices_all, new_name@, tables);
                    }
                    return Err("Failed to parse TOML".to_string());
                },
            }
        }
        i = i + 1;
    }
    match current {
        Some(t) => Ok(t),
        None => match reprinted(content) {
            Ok(t) => Ok(t),
            Err(_) => Err("Failed to parse TOML".to_string()),
        },
    }
}

/// Replaces the manifest's `source` by a table of `url` and, where given,
/// `branch` and `pin`.
pub fn rewrite_source(content: &str, url: &str, branch: Option<&str>, pin: Option<&str>) -> (r: Result<String, String>)
    ensures
        r is Err <==> !toml_parses(content@),
        r matches Err(e) ==> e@ == "Failed to parse module.toml as TOML"@,
        r matches Ok(s) ==> s@ == toml_with_source(content@, url@, text_option(branch), text_option(pin)),
{
    let mut pairs: Vec<(String, String)> = Vec::new();
    pairs.push(("url".to_string(), url.to_string()));
    proof { assert(pairs_view(pairs@) =~= seq![("url"@, url@)]); }
    let ghost first = pairs_view(pairs@);
    if let Some(b) = branch {
        pairs.push(("branch".to_string(), b.to_string()));
    }
    proof {
        assert(pairs_view(pairs@) =~= first + (match text_option(branch) {
            Some(b) => seq![("branch"@, b)],
            None => Seq::<(Seq<char>, Seq<char>)>::empty(),
        }));
    }
    let ghost second = pairs_view(pairs@);
    if let Some(p) = pin {
        pairs.push(("pin".to_string(), p.to_string()));
    }
    proof {
        assert(pairs_view(pairs@) =~= second + (match text_option(pin) {
            Some(p) => seq![("pin"@, p)],
            None => Seq::<(Seq<char>, Seq<char>)>::empty(),
        }));
        assert(pairs_view(pairs@) == source_pairs(url@, text_option(branch), text_option(pin)));
    }
    match with_table(content, "source", &pairs) {
        Ok(s) => Ok(s),
        Err(_) => Err("Failed to parse module.toml as TOML".to_string()),
    }
}

/// Sets the pin of the manifest's `source` table, read from the file at
/// `path`; the error names the file.
pub fn update_pin(path: &str, content: &str, new_pin: &str) -> (r: Result<String, String>)
    ensures
        r is Err <==> !toml_parses(content@),
        r matches Err(e) ==> e@ == "Failed to parse "@ + path@,
        r matches Ok(s) ==> s@ == toml_with_source_pin(content@, new_pin@),
{
    let printed = match entry_kind(content, "source") {
        Ok(EntryKind::Table) => with_value_at(content, "source", "pin", new_pin),
        Ok(_) => reprinted(content),
        Err(e) => Err(e),
    };
    match printed {
        Ok(s) => Ok(s),
        Err(_) => {
            let mut message = "Failed to parse ".to_string();
            crate::text::push_str(&mut message, path);
            Err(message)
        },
    }
}

} // verus!
