//! Extraction from HTML and XML pages with regular expressions.

use vstd::prelude::*;
use crate::adapter::{Command, FieldDef, FetchEach, SourceFormat, str_views, lemma_str_views_push};
use crate::json::{Json, JsonV, plain_text, entries_insert, entry_views, item_views, lemma_object_view, lemma_entry_views, lemma_item_views_push, entries_put};
use crate::text::{chars_of, string_of, push_str};
use crate::transform::{transform_spec, apply_transform};
use crate::extract::{object_spec, extract_object, opt_str};

verus! {

/// What `Regex::new(pattern)` and then `find_iter(text)` give: the matched texts in order;
/// when the pattern does not compile, the text of the compile error.
pub uninterp spec fn regex_find_all(pattern: Seq<char>, text: Seq<char>) -> Result<Seq<Seq<char>>, Seq<char>>;

/// What `Regex::new(pattern)` and then `captures(text)` give for group 1: the text of group 1
/// of the first match, if any; when the pattern does not compile, the text of the compile
/// error.
pub uninterp spec fn regex_group1(pattern: Seq<char>, text: Seq<char>) -> Result<Option<Seq<char>>, Seq<char>>;

/// `regex::Regex::new` and `Regex::find_iter`: the texts of the successive non-overlapping
/// matches of `pattern` in `text`, or, when `pattern` is not a valid regex, the text the
/// crate's error displays.
#[verifier::external_body]
fn regex_matches(pattern: &str, text: &str) -> (r: Result<Vec<String>, String>)
    ensures
        match r {
            Ok(v) => regex_find_all(pattern@, text@) == Ok::<Seq<Seq<char>>, Seq<char>>(str_views(v@)),
            Err(e) => regex_find_all(pattern@, text@) == Err::<Seq<Seq<char>>, Seq<char>>(e@),
        },
{
    let re = regex::Regex::new(pattern).map_err(|e| e.to_string())?;
    Ok(re.find_iter(text).map(|m| m.as_str().to_owned()).collect())
}

/// `regex::Regex::new` and `Regex::captures`: group 1 of the first match of `pattern` in
/// `text`, or, when `pattern` is not a valid regex, the text the crate's error displays.
#[verifier::external_body]
fn regex_first_group(pattern: &str, text: &str) -> (r: Result<Option<String>, String>)
    ensures
        match r {
            Ok(g) => regex_group1(pattern@, text@) == Ok::<Option<Seq<char>>, Seq<char>>(opt_str(g)),
            Err(e) => regex_group1(pattern@, text@) == Err::<Option<Seq<char>>, Seq<char>>(e@),
        },
{
    let re = regex::Regex::new(pattern).map_err(|e| e.to_string())?;
    Ok(re.captures(text).and_then(|c| c.get(1)).map(|m| m.as_str().to_owned()))
}

/// Why a page could not be read.
pub enum ExtractError {
    /// The selector is not a valid regex: the selector and the regex crate's reason.
    InvalidSelector(String, String),
    /// A field pattern is not a valid regex: the pattern and the regex crate's reason.
    InvalidPattern(String, String),
}

/// The mathematical form of an [`ExtractError`].
pub enum ExtractErrorV {
    InvalidSelector(Seq<char>, Seq<char>),
    InvalidPattern(Seq<char>, Seq<char>),
}

impl View for ExtractError {
    type V = ExtractErrorV;

    open spec fn view(&self) -> ExtractErrorV {
        match self {
            ExtractError::InvalidSelector(s, why) => ExtractErrorV::InvalidSelector(s@, why@),
            ExtractError::InvalidPattern(s, why) => ExtractErrorV::InvalidPattern(s@, why@),
        }
    }
}

/// A pattern as it is compiled: in dot-matches-newline mode.
pub open spec fn dotall(p: Seq<char>) -> Seq<char> {
    "(?s)"@ + p
}

/// `extract_field_html`: group 1 of the field's pattern, transformed; else its default; an empty
/// result is null.
pub open spec fn field_html_spec(block: Seq<char>, def: FieldDef) -> Result<JsonV, ExtractErrorV> {
    let raw: Result<Option<Seq<char>>, ExtractErrorV> = match def.pattern {
        Some(p) => match regex_group1(dotall(p@), block) {
            Err(why) => Err(ExtractErrorV::InvalidPattern(p@, why)),
            Ok(g) => Ok(g),
        },
        None => Ok(None),
    };
    match raw {
        Err(e) => Err(e),
        Ok(raw) => {
            let val = match raw {
                Some(s) => plain_text(transform_spec(JsonV::Str(s), def.transform)),
                None => match def.default {
                    Some(d) => d@,
                    None => Seq::empty(),
                },
            };
            if val.len() == 0 {
                Ok(JsonV::Null)
            } else {
                Ok(JsonV::Str(val))
            }
        },
    }
}

fn dotall_of(p: &str) -> (r: String)
    ensures
        r@ == dotall(p@),
{
    let mut s = String::from_str("(?s)");
    push_str(&mut s, p);
    s
}

/// `extract_field_html`.
pub fn extract_field_html(block: &str, def: &FieldDef) -> (r: Result<Json, ExtractError>)
    ensures
        match r {
            Ok(v) => field_html_spec(block@, *def) == Ok::<JsonV, ExtractErrorV>(v@),
            Err(e) => field_html_spec(block@, *def) == Err::<JsonV, ExtractErrorV>(e@),
        },
{
    let raw: Option<String> = match &def.pattern {
        Some(p) => match regex_first_group(dotall_of(p.as_str()).as_str(), block) {
            Err(why) => {
                return Err(ExtractError::InvalidPattern(p.clone(), why));
            },
            Ok(g) => g,
        },
        None => None,
    };
    let val: String = match raw {
        Some(s) => apply_transform(s, def.transform),
        None => match &def.default {
            Some(d) => d.clone(),
            None => String::new(),
        },
    };
    if val.as_str().is_empty() {
        Ok(Json::Null)
    } else {
        Ok(Json::Str(val))
    }
}

/// The object built from one block: each field in order, the first failing pattern ends it;
/// the flag tells whether some field is not null.
pub open spec fn block_object(block: Seq<char>, fields: Seq<(String, FieldDef)>) -> Result<
    (Seq<(Seq<char>, JsonV)>, bool),
    ExtractErrorV,
>
    decreases fields.len(),
{
    if fields.len() == 0 {
        Ok((Seq::empty(), false))
    } else {
        match block_object(block, fields.drop_last()) {
            Err(e) => Err(e),
            Ok((m, has)) => match field_html_spec(block, fields.last().1) {
                Err(e) => Err(e),
                Ok(v) => Ok((entries_insert(m, fields.last().0@, v), has || v != JsonV::Null)),
            },
        }
    }
}

/// The items of the blocks in order: objects with at least one non-null field.
pub open spec fn html_items(blocks: Seq<Seq<char>>, fields: Seq<(String, FieldDef)>) -> Result<
    Seq<JsonV>,
    ExtractErrorV,
>
    decreases blocks.len(),
{
    if blocks.len() == 0 {
        Ok(Seq::empty())
    } else {
        match html_items(blocks.drop_last(), fields) {
            Err(e) => Err(e),
            Ok(items) => match block_object(blocks.last(), fields) {
                Err(e) => Err(e),
                Ok((m, has)) => if has {
                    Ok(items.push(JsonV::Object(m)))
                } else {
                    Ok(items)
                },
            },
        }
    }
}

/// The blocks a page is split into: the selector's matches, or the whole page.
pub open spec fn page_blocks(html: Seq<char>, selector: Option<Seq<char>>) -> Result<Seq<Seq<char>>, ExtractErrorV> {
    match selector {
        Some(sel) => match regex_find_all(dotall(sel), html) {
            Err(why) => Err(ExtractErrorV::InvalidSelector(sel, why)),
            Ok(bs) => Ok(bs),
        },
        None => Ok(seq![html]),
    }
}

/// `extract_html` (and `extract_xml`): one item per block that has a field.
pub open spec fn extract_html_spec(html: Seq<char>, cmd: Command) -> Result<Seq<JsonV>, ExtractErrorV> {
    match page_blocks(html, opt_str(cmd.selector)) {
        Err(e) => Err(e),
        Ok(blocks) => html_items(blocks, cmd.fields@),
    }
}

/// The views of an extraction result.
pub open spec fn items_result(r: Result<Vec<Json>, ExtractError>) -> Result<Seq<JsonV>, ExtractErrorV> {
    match r {
        Ok(v) => Ok(item_views(v@)),
        Err(e) => Err(e@),
    }
}

pub(crate) fn block_fields(block: &str, fields: &Vec<(String, FieldDef)>) -> (r: Result<(Vec<(String, Json)>, bool), ExtractError>)
    ensures
        match r {
            Ok((m, has)) => block_object(block@, fields@) == Ok::<(Seq<(Seq<char>, JsonV)>, bool), ExtractErrorV>((entry_views(m@), has)),
            Err(e) => block_object(block@, fields@) == Err::<(Seq<(Seq<char>, JsonV)>, bool), ExtractErrorV>(e@),
        },
{
    let mut obj: Vec<(String, Json)> = Vec::new();
    let mut has = false;
    proof {
        lemma_entry_views(obj@);
    }
    assert(entry_views(obj@) =~= Seq::<(Seq<char>, JsonV)>::empty());
    for i in 0..fields.len()
        invariant
            block_object(block@, fields@.take(i as int)) == Ok::<(Seq<(Seq<char>, JsonV)>, bool), ExtractErrorV>((entry_views(obj@), has)),
    {
        let ghost t = fields@.take(i + 1);
        assert(t.drop_last() == fields@.take(i as int));
        assert(t.last() == fields@[i as int]);
        match extract_field_html(block, &fields[i].1) {
            Err(e) => {
                proof {
                    lemma_block_object_err(block@, fields@, i as int + 1, e@);
                }
                return Err(e);
            },
            Ok(v) => {
                if !v.is_null() {
                    has = true;
                }
                entries_put(&mut obj, fields[i].0.clone(), v);
            },
        }
    }
    assert(fields@.take(fields.len() as int) == fields@);
    Ok((obj, has))
}

proof fn lemma_block_object_err(block: Seq<char>, fields: Seq<(String, FieldDef)>, n: int, e: ExtractErrorV)
    requires
        0 <= n <= fields.len(),
        block_object(block, fields.take(n)) == Err::<(Seq<(Seq<char>, JsonV)>, bool), ExtractErrorV>(e),
    ensures
        block_object(block, fields) == Err::<(Seq<(Seq<char>, JsonV)>, bool), ExtractErrorV>(e),
    decreases fields.len() - n,
{
    if n < fields.len() {
        assert(fields.take(n + 1).drop_last() == fields.take(n));
        lemma_block_object_err(block, fields, n + 1, e);
    } else {
        assert(fields.take(n) == fields);
    }
}

proof fn lemma_html_items_err(blocks: Seq<Seq<char>>, fields: Seq<(String, FieldDef)>, n: int, e: ExtractErrorV)
    requires
        0 <= n <= blocks.len(),
        html_items(blocks.take(n), fields) == Err::<Seq<JsonV>, ExtractErrorV>(e),
    ensures
        html_items(blocks, fields) == Err::<Seq<JsonV>, ExtractErrorV>(e),
    decreases blocks.len() - n,
{
    if n < blocks.len() {
        assert(blocks.take(n + 1).drop_last() == blocks.take(n));
        lemma_html_items_err(blocks, fields, n + 1, e);
    } else {
        assert(blocks.take(n) == blocks);
    }
}

/// `extract_html`; XML pages are read the same way (`extract_xml`).
pub fn extract_html(html: &str, cmd: &Command) -> (r: Result<Vec<Json>, ExtractError>)
    ensures
        items_result(r) == extract_html_spec(html@, *cmd),
{
    let blocks: Vec<String> = match &cmd.selector {
        Some(sel) => match regex_matches(dotall_of(sel.as_str()).as_str(), html) {
            Err(why) => {
                return Err(ExtractError::InvalidSelector(sel.clone(), why));
            },
            Ok(bs) => bs,
        },
        None => {
            let mut v: Vec<String> = Vec::new();
            v.push(String::from_str(html));
            assert(str_views(v@) =~= seq![html@]);
            v
        },
    };
    let ghost bv = str_views(blocks@);
    let mut items: Vec<Json> = Vec::new();
    assert(item_views(items@) =~= Seq::<JsonV>::empty());
    for i in 0..blocks.len()
        invariant
            bv == str_views(blocks@),
            page_blocks(html@, opt_str(cmd.selector)) == Ok::<Seq<Seq<char>>, ExtractErrorV>(bv),
            html_items(bv.take(i as int), cmd.fields@) == Ok::<Seq<JsonV>, ExtractErrorV>(item_views(items@)),
    {
        let ghost t = bv.take(i + 1);
        assert(t.drop_last() == bv.take(i as int));
        assert(t.last() == blocks@[i as int]@);
        match block_fields(blocks[i].as_str(), &cmd.fields) {
            Err(e) => {
                proof {
                    lemma_html_items_err(bv, cmd.fields@, i as int + 1, e@);
                }
                return Err(e);
            },
            Ok((m, has)) => {
                if has {
                    proof {
                        lemma_object_view(m);
                    }
                    let x = Json::Object(m);
                    proof {
                        lemma_item_views_push(items@, x);
                    }
                    items.push(x);
                }
            },
        }
    }
    assert(bv.take(blocks.len() as int) == bv);
    Ok(items)
}

} // verus!
