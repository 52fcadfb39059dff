//! The rules of the agent surface's one tool, `check_catalogues`, which
//! takes catalogue *contents* directly and touches no filesystem.
//!
//! **The library is required, never detected.** Identification reads
//! manifests, config files, layouts and call sites, none of which exist on
//! this surface, so the caller names the library or gets a refusal. And a
//! refusal here speaks the caller's vocabulary: no message mentions a flag.

use vstd::prelude::*;

use crate::library::{id_name, Id};
use crate::locale::{canonical_text, opt_view, spec_locales};
use crate::scan::{Diagnostic, Report};
use crate::text::{same, utf8};

verus! {

pub const DEFAULT_MAX_RESULTS: usize = 500;

pub const MAX_MAX_RESULTS: usize = 5000;

/// The tool's name, the only one this surface offers.
pub const TOOL_NAME: &'static str = "check_catalogues";

/// What a request asks of the server.
#[derive(Debug, Clone, Copy, PartialEq, Eq, Structural)]
pub enum Method {
    Initialize,
    ListTools,
    CallTool,
    Ping,
    Unknown,
}

pub open spec fn spec_method(name: Seq<char>) -> Method {
    if name == "initialize"@ {
        Method::Initialize
    } else if name == "tools/list"@ {
        Method::ListTools
    } else if name == "tools/call"@ {
        Method::CallTool
    } else if name == "ping"@ {
        Method::Ping
    } else {
        Method::Unknown
    }
}

/// Which of the protocol's methods a request names. Anything else is a
/// protocol error, answered as such.
pub fn method(name: &str) -> (r: Method)
    ensures
        r == spec_method(name@),
{
    if same(name, "initialize") {
        Method::Initialize
    } else if same(name, "tools/list") {
        Method::ListTools
    } else if same(name, "tools/call") {
        Method::CallTool
    } else if same(name, "ping") {
        Method::Ping
    } else {
        Method::Unknown
    }
}

/// Whether a tool call names the tool this server offers.
pub fn offers(name: &str) -> (r: bool)
    ensures
        r == (name@ == TOOL_NAME@),
{
    same(name, TOOL_NAME)
}

/// The protocol error for a method this server does not implement.
pub fn unknown_method(name: &str) -> (r: String)
    ensures
        r@ == "this server does not implement "@ + name@,
{
    let mut e = String::from_str("this server does not implement ");
    e.append(name);
    e
}

/// The protocol error for a tool this server does not offer.
pub fn unknown_tool(name: &str) -> (r: String)
    ensures
        r@ == "this server offers no tool named "@ + name@,
{
    let mut e = String::from_str("this server offers no tool named ");
    e.append(name);
    e
}

/// Whether the audit ran: no diagnostic is an error. A set full of
/// findings is the answer, not a failure to produce one.
pub fn answered(diagnostics: &Vec<Diagnostic>) -> (r: bool)
    ensures
        r == !(exists|i: int| 0 <= i < diagnostics@.len() && (#[trigger] diagnostics@[i]).severity@ == "error"@),
{
    let mut i: usize = 0;
    while i < diagnostics.len()
        invariant
            0 <= i <= diagnostics@.len(),
            forall|j: int| 0 <= j < i ==> (#[trigger] diagnostics@[j]).severity@ != "error"@,
        decreases diagnostics@.len() - i,
    {
        if same(diagnostics[i].severity.as_str(), "error") {
            return false;
        }
        i += 1;
    }
    true
}

pub open spec fn library_required() -> Seq<char> {
    "library is required and must be one of "@ + crate::cli::known_names()
        + ". It cannot be worked out from file contents alone, and guessing it is what this tool exists not to do."@
}

pub open spec fn unknown_library(named: Seq<char>) -> Seq<char> {
    named + " is not a library this reads. Try one of "@ + crate::cli::known_names() + "."@
}

/// The library the caller named, if it was named as a string and is one
/// this reads.
pub fn library_named(named: Option<&str>) -> (r: Result<Id, String>)
    ensures
        match named {
            None => r matches Err(e) && e@ == library_required(),
            Some(n) => match crate::cli::named(n@) {
                Some(id) => r == Ok::<Id, String>(id),
                None => r matches Err(e) && e@ == unknown_library(n@),
            },
        },
{
    let known = crate::cli::known_list();
    match named {
        None => {
            let mut e = String::from_str("library is required and must be one of ");
            e.append(known.as_str());
            e.append(". It cannot be worked out from file contents alone, and guessing it is what this tool exists not to do.");
            Err(e)
        },
        Some(n) => match Id::parse(n) {
            Some(id) => {
                proof {
                    let chosen = choose|x: Id| id_name(x)@ == n@;
                    crate::library::lemma_names_are_distinct(chosen, id);
                }
                Ok(id)
            },
            None => {
                let mut e = String::from_str(n);
                e.append(" is not a library this reads. Try one of ");
                e.append(known.as_str());
                e.append(".");
                Err(e)
            },
        },
    }
}

/// A locale the caller supplied for one file, in its canonical spelling.
pub fn supplied_locale(tag: &str) -> (r: Result<String, String>)
    ensures
        match canonical_text(utf8(tag@)) {
            Some(c) => r matches Ok(s) && s@ == c,
            None => r matches Err(e) && e@ == tag@ + " is not a language tag"@,
        },
{
    match crate::locale::canonicalise(tag) {
        Some(c) => Ok(c),
        None => {
            let mut e = String::from_str(tag);
            e.append(" is not a language tag");
            Err(e)
        },
    }
}

/// Every locale settled before the audit starts. A caller that supplied
/// every locale is taken at its word and the names are not read at all;
/// one that left any out has all of them worked out from the names
/// together, because mixing a supplied answer in would change what the
/// rest resolve to.
pub fn settle_locales(names: &Vec<String>, supplied: Vec<Option<String>>) -> (r: Result<Vec<Option<String>>, String>)
    ensures
        (forall|i: int| 0 <= i < supplied@.len() ==> (#[trigger] supplied@[i]) is Some) ==> r == Ok::<
            Vec<Option<String>>,
            String,
        >(supplied),
        !(forall|i: int| 0 <= i < supplied@.len() ==> (#[trigger] supplied@[i]) is Some) ==> match spec_locales(names@) {
            Ok(ls) => r matches Ok(v) && v@.map_values(|o: Option<String>| opt_view(o)) == ls,
            Err((i, t)) => r matches Err(e) && utf8(e@) == crate::locale::set_refusal(names@[i]@, t),
        },
{
    let mut i: usize = 0;
    while i < supplied.len() && supplied[i].is_some()
        invariant
            0 <= i <= supplied@.len(),
            forall|k: int| 0 <= k < i ==> (#[trigger] supplied@[k]) is Some,
        decreases supplied@.len() - i,
    {
        i += 1;
    }
    if i == supplied.len() {
        return Ok(supplied);
    }
    crate::locale::locales_of(names.as_slice())
}

/// The cap on returned findings: the default where none was asked for,
/// at most the maximum, and a refusal for anything that is not a positive
/// integer. `raw` is absent where the caller gave no cap, and holds `None`
/// where what the caller gave is not a whole number a `u64` holds.
pub fn max_results(raw: Option<Option<u64>>) -> (r: Result<usize, String>)
    ensures
        match raw {
            None => r == Ok::<usize, String>(DEFAULT_MAX_RESULTS),
            Some(None) => r matches Err(e) && e@ == "maxResults must be a positive integer"@,
            Some(Some(v)) => if v < 1 {
                r matches Err(e) && e@ == "maxResults must be a positive integer"@
            } else if v > MAX_MAX_RESULTS {
                r == Ok::<usize, String>(MAX_MAX_RESULTS)
            } else {
                r == Ok::<usize, String>(v as usize)
            },
        },
{
    match raw {
        None => Ok(DEFAULT_MAX_RESULTS),
        Some(None) => Err(String::from_str("maxResults must be a positive integer")),
        Some(Some(v)) => {
            if v < 1 {
                Err(String::from_str("maxResults must be a positive integer"))
            } else if v > 5000 {
                Ok(MAX_MAX_RESULTS)
            } else {
                Ok(v as usize)
            }
        },
    }
}

/// The report cut to at most `max` findings, and whether any were
/// dropped: a silently shortened answer is wrong in the most expensive
/// way, in a tool whose whole job is telling you what is absent.
pub fn cap(report: &mut Report, max: usize) -> (truncated: bool)
    ensures
        truncated == (old(report).findings@.len() > max),
        final(report).findings@ == if truncated {
            old(report).findings@.subrange(0, max as int)
        } else {
            old(report).findings@
        },
        final(report).diagnostics == old(report).diagnostics,
        final(report).files == old(report).files,
        final(report).source == old(report).source,
        final(report).status == old(report).status,
        final(report).summary == old(report).summary,
        final(report).schema == old(report).schema,
        final(report).system == old(report).system,
{
    let truncated = report.findings.len() > max;
    if truncated {
        report.findings.truncate(max);
    }
    truncated
}

} // verus!

verus! {

/// One entry of the tool's `files` argument, as the caller wrote it: each
/// field absent where it was missing or not a string.
#[derive(Debug)]
pub struct FileArgument {
    pub path: Option<String>,
    pub content: Option<String>,
    pub locale: Option<String>,
}

pub open spec fn files_invalid() -> Seq<char> {
    "files is required and must be a non-empty array of { path, content }"@
}

/// What is wrong with one entry, if anything: a missing path or content,
/// or a locale that is not a language tag.
pub open spec fn item_problem(f: FileArgument) -> Option<Seq<char>> {
    if f.path is None || f.content is None {
        Some(files_invalid())
    } else {
        match f.locale {
            Some(t) => if canonical_text(utf8(t@)) is None {
                Some(t@ + " is not a language tag"@)
            } else {
                None
            },
            None => None,
        }
    }
}

/// The first problem among the first `n` entries.
pub open spec fn first_problem(items: Seq<FileArgument>, n: int) -> Option<Seq<char>>
    decreases n,
{
    if n <= 0 {
        None
    } else {
        match first_problem(items, n - 1) {
            Some(p) => Some(p),
            None => item_problem(items[n - 1]),
        }
    }
}

/// The locale an entry supplies, canonically spelled.
pub open spec fn supplied_of(f: FileArgument) -> Option<Seq<char>> {
    match f.locale {
        Some(t) => canonical_text(utf8(t@)),
        None => None,
    }
}

/// The files a caller handed over: their names, contents and supplied
/// locales, or the refusal of the first entry that is not a file. Missing,
/// empty, or an entry without a path or content is one refusal; a locale
/// that is not a language tag is refused by name.
pub fn files_given(items: Option<Vec<FileArgument>>) -> (r: Result<(Vec<String>, Vec<String>, Vec<Option<String>>), String>)
    ensures
        match items {
            None => r matches Err(e) && e@ == files_invalid(),
            Some(v) => if v@.len() == 0 {
                r matches Err(e) && e@ == files_invalid()
            } else {
                match first_problem(v@, v@.len() as int) {
                    Some(p) => r matches Err(e) && e@ == p,
                    None => r matches Ok((names, contents, supplied)) && names@.len() == v@.len() && contents@.len()
                        == v@.len() && supplied@.len() == v@.len() && forall|i: int|
                        0 <= i < v@.len() ==> (#[trigger] names@[i])@ == v@[i].path->0@ && contents@[i]@
                            == v@[i].content->0@ && opt_view(supplied@[i]) == supplied_of(v@[i]),
                }
            },
        },
{
    let v = match items {
        None => {
            return Err(String::from_str("files is required and must be a non-empty array of { path, content }"));
        },
        Some(v) => v,
    };
    if v.len() == 0 {
        return Err(String::from_str("files is required and must be a non-empty array of { path, content }"));
    }
    let mut names: Vec<String> = Vec::new();
    let mut contents: Vec<String> = Vec::new();
    let mut supplied: Vec<Option<String>> = Vec::new();
    let mut i: usize = 0;
    while i < v.len()
        invariant
            0 <= i <= v@.len(),
            items == Some(v),
            v@.len() > 0,
            first_problem(v@, i as int) is None,
            names@.len() == i && contents@.len() == i && supplied@.len() == i,
            forall|k: int| 0 <= k < i ==> (#[trigger] names@[k])@ == v@[k].path->0@,
            forall|k: int| 0 <= k < i ==> (#[trigger] contents@[k])@ == v@[k].content->0@,
            forall|k: int| 0 <= k < i ==> opt_view(#[trigger] supplied@[k]) == supplied_of(v@[k]),
        decreases v@.len() - i,
    {
        let item = &v[i];
        let path = match &item.path {
            Some(p) => p,
            None => {
                proof {
                    lemma_first_problem_stays(v@, i as int + 1, v@.len() as int);
                }
                return Err(String::from_str("files is required and must be a non-empty array of { path, content }"));
            },
        };
        let content = match &item.content {
            Some(c) => c,
            None => {
                proof {
                    lemma_first_problem_stays(v@, i as int + 1, v@.len() as int);
                }
                return Err(String::from_str("files is required and must be a non-empty array of { path, content }"));
            },
        };
        let locale = match &item.locale {
            None => None,
            Some(tag) => match supplied_locale(tag.as_str()) {
                Ok(c) => Some(c),
                Err(e) => {
                    proof {
                        lemma_first_problem_stays(v@, i as int + 1, v@.len() as int);
                    }
                    return Err(e);
                },
            },
        };
        let ghost before = (names@, contents@, supplied@);
        names.push(crate::text::owned(path.as_str()));
        contents.push(crate::text::owned(content.as_str()));
        supplied.push(locale);
        proof {
            assert(item_problem(v@[i as int]) is None);
            assert(names@[i as int]@ == v@[i as int].path->0@);
            assert(contents@[i as int]@ == v@[i as int].content->0@);
            assert(opt_view(supplied@[i as int]) == supplied_of(v@[i as int]));
            assert forall|k: int| 0 <= k < i + 1 implies (#[trigger] names@[k])@ == v@[k].path->0@ by {
                if k < i {
                    assert(names@[k] == before.0[k]);
                }
            }
            assert forall|k: int| 0 <= k < i + 1 implies (#[trigger] contents@[k])@ == v@[k].content->0@ by {
                if k < i {
                    assert(contents@[k] == before.1[k]);
                }
            }
            assert forall|k: int| 0 <= k < i + 1 implies opt_view(#[trigger] supplied@[k]) == supplied_of(v@[k]) by {
                if k < i {
                    assert(supplied@[k] == before.2[k]);
                }
            }
        }
        i += 1;
    }
    Ok((names, contents, supplied))
}

proof fn lemma_first_problem_stays(items: Seq<FileArgument>, n: int, m: int)
    requires
        0 < n <= m <= items.len(),
        first_problem(items, n) is Some,
    ensures
        first_problem(items, m) == first_problem(items, n),
    decreases m - n,
{
    if m > n {
        lemma_first_problem_stays(items, n, m - 1);
    }
}

} // verus!

verus! {

/// What the tool was asked, once every argument has been read.
#[derive(Debug)]
pub struct Arguments {
    pub library: Id,
    pub names: Vec<String>,
    pub contents: Vec<String>,
    pub locales: Vec<Option<String>>,
    pub max: usize,
}

pub open spec fn spec_library(named: Option<Seq<char>>) -> Result<Id, Seq<char>> {
    match named {
        None => Err(library_required()),
        Some(n) => match crate::cli::named(n) {
            Some(id) => Ok(id),
            None => Err(unknown_library(n)),
        },
    }
}

pub open spec fn spec_files(items: Option<Seq<FileArgument>>) -> Result<Seq<FileArgument>, Seq<char>> {
    match items {
        None => Err(files_invalid()),
        Some(v) => if v.len() == 0 {
            Err(files_invalid())
        } else {
            match first_problem(v, v.len() as int) {
                Some(p) => Err(p),
                None => Ok(v),
            }
        },
    }
}

pub open spec fn path_strings(fs: Seq<FileArgument>) -> Seq<String> {
    fs.map_values(|f: FileArgument| f.path->0)
}

/// Every file's locale: as supplied where every file supplied one, and
/// otherwise read from the names together.
pub open spec fn spec_settled(fs: Seq<FileArgument>) -> Result<Seq<Option<Seq<char>>>, Seq<u8>> {
    if forall|i: int| 0 <= i < fs.len() ==> (#[trigger] supplied_of(fs[i])) is Some {
        Ok(fs.map_values(|f: FileArgument| supplied_of(f)))
    } else {
        match spec_locales(path_strings(fs)) {
            Ok(ls) => Ok(ls),
            Err((i, t)) => Err(crate::locale::set_refusal(fs[i].path->0@, t)),
        }
    }
}

pub open spec fn spec_max(raw: Option<Option<u64>>) -> Result<usize, Seq<char>> {
    match raw {
        None => Ok(DEFAULT_MAX_RESULTS),
        Some(None) => Err("maxResults must be a positive integer"@),
        Some(Some(v)) => if v < 1 {
            Err("maxResults must be a positive integer"@)
        } else if v > MAX_MAX_RESULTS {
            Ok(MAX_MAX_RESULTS)
        } else {
            Ok(v as usize)
        },
    }
}

pub open spec fn str_view(o: Option<&str>) -> Option<Seq<char>> {
    match o {
        Some(s) => Some(s@),
        None => None,
    }
}

pub open spec fn file_views(o: Option<Vec<FileArgument>>) -> Option<Seq<FileArgument>> {
    match o {
        Some(v) => Some(v@),
        None => None,
    }
}

/// The tool's arguments read in the order their refusals are owed: the
/// library, then the files and their locales, then the cap. The first
/// argument that is wrong is the refusal.
pub fn arguments(library: Option<&str>, files: Option<Vec<FileArgument>>, max: Option<Option<u64>>) -> (r: Result<
    Arguments,
    String,
>)
    ensures
        match spec_library(str_view(library)) {
            Err(m) => r matches Err(e) && e@ == m,
            Ok(id) => match spec_files(file_views(files)) {
                Err(m) => r matches Err(e) && e@ == m,
                Ok(fs) => match spec_settled(fs) {
                    Err(m) => r matches Err(e) && utf8(e@) == m,
                    Ok(ls) => match spec_max(max) {
                        Err(m) => r matches Err(e) && e@ == m,
                        Ok(cap) => r matches Ok(a) && a.library == id && a.max == cap && a.names@.len() == fs.len()
                            && a.contents@.len() == fs.len() && a.locales@.map_values(|o: Option<String>| opt_view(o))
                            == ls && forall|i: int|
                            0 <= i < fs.len() ==> (#[trigger] a.names@[i])@ == fs[i].path->0@ && a.contents@[i]@
                                == fs[i].content->0@,
                    },
                },
            },
        },
{
    let id = match library_named(library) {
        Ok(id) => id,
        Err(e) => {
            return Err(e);
        },
    };
    let ghost fv = file_views(files);
    let (names, contents, supplied) = match files_given(files) {
        Ok(t) => t,
        Err(e) => {
            return Err(e);
        },
    };
    let ghost fs = fv->0;
    proof {
        assert(spec_files(fv) == Ok::<Seq<FileArgument>, Seq<char>>(fs));
        assert forall|i: int| 0 <= i < fs.len() implies opt_view(#[trigger] supplied@[i]) == supplied_of(fs[i]) by {
            assert(names@[i]@ == fs[i].path->0@);
        }
        crate::locale::lemma_locales_by_text(names@, path_strings(fs));
        if forall|i: int| 0 <= i < fs.len() ==> (#[trigger] supplied_of(fs[i])) is Some {
            assert(supplied@.map_values(|o: Option<String>| opt_view(o)) =~= fs.map_values(|f: FileArgument| supplied_of(f)));
        } else {
            let k = choose|k: int| 0 <= k < fs.len() && !(supplied_of(#[trigger] fs[k]) is Some);
            assert(!(supplied@[k] is Some));
        }
    }
    let locales = match settle_locales(&names, supplied) {
        Ok(l) => l,
        Err(e) => {
            proof {
                if let Err((i, t)) = spec_locales(names@) {
                    crate::locale::lemma_locales_index(names@);
                    assert(names@[i]@ == fs[i].path->0@);
                }
            }
            return Err(e);
        },
    };
    let cap = match max_results(max) {
        Ok(c) => c,
        Err(e) => {
            return Err(e);
        },
    };
    Ok(Arguments { library: id, names, contents, locales, max: cap })
}

} // verus!
