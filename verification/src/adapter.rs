//! The adapter schema: declarative descriptions of how to fetch and extract data from a site.

use vstd::prelude::*;
use crate::json::Json;
use crate::text::{chars_of, chars_eq, str_eq};

verus! {

/// Source format of a command's response.
#[derive(Clone, Copy, Debug, PartialEq, Eq, Structural)]
pub enum SourceFormat {
    Html,
    Json,
    Xml,
    /// Navigate a browser and read the rendered HTML.
    Browser,
    /// Navigate a browser, then evaluate JavaScript that returns JSON text.
    BrowserApi,
    /// Evaluate JavaScript inside a running desktop application over CDP.
    Desktop,
    /// Capture the first network response whose URL matches a pattern.
    Intercept,
    /// Inline `data` from the adapter itself; nothing is fetched.
    Static,
}

/// Post-processing applied to an extracted value.
#[derive(Clone, Copy, Debug, PartialEq, Eq, Structural)]
pub enum Transform {
    StripHtml,
    Trim,
    DecodeEntities,
    ToNumber,
    AddOne,
    Join,
    First,
}

/// How one field is extracted from an item.
pub struct FieldDef {
    /// Regex with one capture group (HTML and XML sources).
    pub pattern: Option<String>,
    /// Path into a JSON item.
    pub json_path: Option<String>,
    /// Fallback paths tried in order after `json_path`.
    pub alt_paths: Vec<String>,
    /// `{name}` template over extracted fields, item members and parameters.
    pub template: Option<String>,
    /// Value used when extraction finds nothing.
    pub default: Option<String>,
    /// Post-processing transform.
    pub transform: Option<Transform>,
}

/// A command parameter.
pub struct ParamDef {
    /// Type hint shown in help (`string` when omitted).
    pub param_type: String,
    pub required: bool,
    pub default: Option<Json>,
    pub description: Option<String>,
    /// Binds leftover positional arguments, in definition order.
    pub positional: bool,
    /// Allowed values; any other value is refused.
    pub choices: Vec<String>,
}

/// Each ID of the first response is fetched from `url` (with `{id}`) and extracted with `fields`.
pub struct FetchEach {
    pub url: String,
    pub format: SourceFormat,
    pub fields: Vec<(String, FieldDef)>,
}

/// One command of an adapter. Fields, params and headers keep their definition order.
pub struct Command {
    pub description: String,
    pub aliases: Vec<String>,
    pub url: String,
    pub format: SourceFormat,
    pub selector: Option<String>,
    pub fields: Vec<(String, FieldDef)>,
    pub data: Option<Json>,
    pub columns: Vec<String>,
    pub params: Vec<(String, ParamDef)>,
    pub headers: Vec<(String, String)>,
    pub method: Option<String>,
    pub body: Option<Json>,
    pub content_type: Option<String>,
    pub timeout: Option<u64>,
    /// Number of leading items to drop.
    pub skip: usize,
    pub evaluate: Option<String>,
    pub cdp_target: Option<String>,
    pub intercept_pattern: Option<String>,
    pub fetch_each: Option<FetchEach>,
}

/// A declarative adapter for one site.
pub struct Adapter {
    pub name: String,
    pub description: String,
    pub base_url: String,
    pub version: String,
    pub aliases: Vec<String>,
    pub tags: Vec<String>,
    /// Commands by name, each name once.
    pub commands: Vec<(String, Command)>,
}

/// The type hint of a parameter whose definition names none.
pub fn default_string() -> (s: String)
    ensures
        s@ == "string"@,
{
    String::from_str("string")
}

/// The position of the first name in `names` equal to `k`.
pub open spec fn first_name_index(names: Seq<Seq<char>>, k: Seq<char>) -> Option<nat>
    decreases names.len(),
{
    if names.len() == 0 {
        None
    } else if names[0] == k {
        Some(0)
    } else {
        match first_name_index(names.skip(1), k) {
            Some(i) => Some(i + 1),
            None => None,
        }
    }
}

/// The views of a list of strings.
pub open spec fn str_views(v: Seq<String>) -> Seq<Seq<char>> {
    Seq::new(v.len(), |i: int| v[i]@)
}

/// Whether `k` is one of `names`.
pub fn contains_str(names: &Vec<String>, k: &str) -> (r: bool)
    ensures
        r == str_views(names@).contains(k@),
{
    for i in 0..names.len()
        invariant
            forall|j: int| 0 <= j < i ==> names@[j]@ != k@,
    {
        if str_eq(names[i].as_str(), k) {
            assert(str_views(names@)[i as int] == k@);
            return true;
        }
    }
    assert forall|j: int| 0 <= j < str_views(names@).len() implies str_views(names@)[j] != k@ by {
        assert(str_views(names@)[j] == names@[j]@);
    }
    false
}

/// The names of the commands of an adapter.
pub open spec fn command_names(cmds: Seq<(String, Command)>) -> Seq<Seq<char>> {
    Seq::new(cmds.len(), |i: int| cmds[i].0@)
}

/// The position of the first command that lists `k` among its aliases.
pub open spec fn first_alias_index(cmds: Seq<(String, Command)>, k: Seq<char>) -> Option<nat>
    decreases cmds.len(),
{
    if cmds.len() == 0 {
        None
    } else if str_views(cmds[0].1.aliases@).contains(k) {
        Some(0)
    } else {
        match first_alias_index(cmds.skip(1), k) {
            Some(i) => Some(i + 1),
            None => None,
        }
    }
}

/// The command that `name` refers to: the first command of that name, else the first command
/// that lists `name` among its aliases.
pub open spec fn command_index(cmds: Seq<(String, Command)>, name: Seq<char>) -> Option<nat> {
    match first_name_index(command_names(cmds), name) {
        Some(i) => Some(i),
        None => first_alias_index(cmds, name),
    }
}

proof fn lemma_first_name(names: Seq<Seq<char>>, k: Seq<char>, i: int)
    requires
        0 <= i <= names.len(),
        forall|j: int| 0 <= j < i ==> names[j] != k,
        i == names.len() || names[i] == k,
    ensures
        first_name_index(names, k) == (if i == names.len() { None } else { Some(i as nat) }),
    decreases i,
{
    if i > 0 {
        lemma_first_name(names.skip(1), k, i - 1);
    }
}

proof fn lemma_first_alias(cmds: Seq<(String, Command)>, k: Seq<char>, i: int)
    requires
        0 <= i <= cmds.len(),
        forall|j: int| 0 <= j < i ==> !str_views(cmds[j].1.aliases@).contains(k),
        i == cmds.len() || str_views(cmds[i].1.aliases@).contains(k),
    ensures
        first_alias_index(cmds, k) == (if i == cmds.len() { None } else { Some(i as nat) }),
    decreases i,
{
    if i > 0 {
        lemma_first_alias(cmds.skip(1), k, i - 1);
    }
}

impl Adapter {
    /// Finds a command by name or alias; returns its canonical name and definition.
    pub fn command(&self, name: &str) -> (r: Option<(String, &Command)>)
        ensures
            match command_index(self.commands@, name@) {
                Some(i) => r matches Some((n, c)) && i < self.commands@.len() && n@ == self.commands@[i as int].0@
                    && *c == self.commands@[i as int].1,
                None => r is None,
            },
    {
        let cmds = &self.commands;
        let ghost names = command_names(cmds@);
        let mut i: usize = 0;
        while i < cmds.len() && !str_eq(cmds[i].0.as_str(), name)
            invariant
                i <= cmds.len(),
                names == command_names(cmds@),
                forall|j: int| 0 <= j < i ==> names[j] != name@,
            decreases cmds.len() - i,
        {
            i = i + 1;
        }
        proof {
            lemma_first_name(names, name@, i as int);
        }
        if i < cmds.len() {
            return Some((cmds[i].0.clone(), &cmds[i].1));
        }
        let mut k: usize = 0;
        while k < cmds.len() && !contains_str(&cmds[k].1.aliases, name)
            invariant
                k <= cmds.len(),
                forall|j: int| 0 <= j < k ==> !str_views(cmds@[j].1.aliases@).contains(name@),
            decreases cmds.len() - k,
        {
            k = k + 1;
        }
        proof {
            lemma_first_alias(cmds@, name@, k as int);
        }
        if k < cmds.len() {
            return Some((cmds[k].0.clone(), &cmds[k].1));
        }
        None
    }
}

} // verus!

verus! {

/// Pushing onto a list of strings pushes its view.
pub proof fn lemma_str_views_push(v: Seq<String>, x: String)
    ensures
        str_views(v.push(x)) == str_views(v).push(x@),
{
    assert(str_views(v.push(x)) =~= str_views(v).push(x@));
}

} // verus!
