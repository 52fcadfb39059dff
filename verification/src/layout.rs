//! Reading the file set, once the library is known.
//!
//! `identify` answers *which library*; this answers *which files, and
//! what locale is each*. Three shapes, and what separates them is where
//! the locale lives:
//!
//! - **`shared`** — the locale is whatever the names do *not* share, so
//!   the names are only readable together and the set has to live in one
//!   directory.
//! - **`fixed`** — the library supplies the prefix, so one name is
//!   readable on its own, so the set may span two directories.
//! - **`namespaced`** — the parent directory is the locale. One namespace
//!   is one set.
//!
//! Listing directories is the caller's; every rule about what the listed
//! files are is here.

use vstd::prelude::*;

use crate::library::{id_name, spec_layouts, Id, Layout, Shape};
use crate::locale::{opt_view, spec_from_prefix, spec_locales};
use crate::text::{decimal, joined_with, texts, utf8};

verus! {

/// One catalogue of a set: where it is, the name it is reported under,
/// and its locale (`None` is the base catalogue).
#[derive(Debug, Clone, PartialEq, Eq)]
pub struct Located {
    pub path: String,
    pub name: String,
    pub locale: Option<String>,
}

/// A file as the specification sees it.
pub struct Place {
    pub path: Seq<char>,
    pub name: Seq<char>,
    pub locale: Option<Seq<char>>,
}

impl View for Located {
    type V = Place;

    open spec fn view(&self) -> Place {
        Place { path: self.path@, name: self.name@, locale: opt_view(self.locale) }
    }
}

pub open spec fn places(v: Seq<Located>) -> Seq<Place> {
    v.map_values(|l: Located| l@)
}

/// A set of files read under one layout.
#[derive(Debug, Clone)]
pub struct Reading {
    pub files: Vec<Located>,
    pub shape: Shape,
    pub keys_are_source: bool,
}

/// A file found where a layout looks, before it is read as a catalogue:
/// its path, that path's components, and its base name.
#[derive(Debug, Clone, PartialEq, Eq)]
pub struct Candidate {
    pub path: String,
    pub components: Vec<String>,
    pub name: String,
}

/// A candidate as the specification sees it.
pub struct Found {
    pub path: Seq<char>,
    pub components: Seq<Seq<char>>,
    pub name: Seq<char>,
}

impl View for Candidate {
    type V = Found;

    open spec fn view(&self) -> Found {
        Found { path: self.path@, components: texts(self.components@), name: self.name@ }
    }
}

pub open spec fn founds(v: Seq<Candidate>) -> Seq<Found> {
    v.map_values(|c: Candidate| c@)
}

// ---------------------------------------------------------------------
// Small rules
// ---------------------------------------------------------------------

pub open spec fn shape_text(shape: Shape) -> Seq<char> {
    match shape {
        Shape::Shared { extension } => "a directory of <locale>."@ + extension@,
        Shape::Fixed { prefix, extension } => prefix@ + ".<locale>."@ + extension@,
        Shape::Namespaced { extension } => "<locale>/<namespace>."@ + extension@,
    }
}

/// A shape as a refusal and the evidence name it.
pub fn describe_shape(shape: Shape) -> (r: String)
    ensures
        r@ == shape_text(shape),
{
    match shape {
        Shape::Shared { extension } => {
            let mut out = String::from_str("a directory of <locale>.");
            out.append(extension);
            out
        },
        Shape::Fixed { prefix, extension } => {
            let mut out = String::from_str(prefix);
            out.append(".<locale>.");
            out.append(extension);
            out
        },
        Shape::Namespaced { extension } => {
            let mut out = String::from_str("<locale>/<namespace>.");
            out.append(extension);
            out
        },
    }
}

/// A file name's extension is `extension`: what follows its last `.`,
/// where something precedes that `.`.
pub open spec fn spec_has_extension(name: Seq<char>, extension: Seq<char>) -> bool {
    match crate::text::cut_last(name, '.') {
        Some((stem, found)) => stem.len() > 0 && found == extension,
        None => false,
    }
}

pub fn has_extension(name: &str, extension: &str) -> (r: bool)
    ensures
        r == spec_has_extension(name@, extension@),
{
    match crate::text::rsplit_once(name, '.') {
        Some((stem, found)) => !stem.is_empty() && crate::text::same(found, extension),
        None => false,
    }
}

/// The directory a candidate sits in, as components.
pub open spec fn parent(f: Found) -> Seq<Seq<char>> {
    if f.components.len() > 0 {
        f.components.drop_last()
    } else {
        f.components
    }
}

/// How many distinct directories the first `n` files sit in.
pub open spec fn directory_count(fs: Seq<Found>, n: int) -> nat
    decreases n,
{
    if n <= 0 {
        0
    } else {
        directory_count(fs, n - 1) + if (exists|j: int| 0 <= j < n - 1 && parent(#[trigger] fs[j]) == parent(fs[n - 1])) {
            0nat
        } else {
            1nat
        }
    }
}

pub open spec fn spread_text(n: nat) -> Seq<char> {
    "these files are in "@ + decimal(n)
        + " directories, and a set read by what its names share is one directory. Audit them one directory at a time."@
}

/// Whether two candidates sit in the same directory.
fn same_parent(a: &Candidate, b: &Candidate) -> (r: bool)
    ensures
        r == (parent(a@) == parent(b@)),
{
    let la: usize = if a.components.len() > 0 {
        a.components.len() - 1
    } else {
        0
    };
    let lb: usize = if b.components.len() > 0 {
        b.components.len() - 1
    } else {
        0
    };
    proof {
        assert(parent(a@).len() == la);
        assert(parent(b@).len() == lb);
    }
    if la != lb {
        return false;
    }
    let mut i: usize = 0;
    while i < la
        invariant
            0 <= i <= la,
            la == lb,
            la == parent(a@).len(),
            lb == parent(b@).len(),
            forall|k: int| 0 <= k < i ==> parent(a@)[k] == parent(b@)[k],
        decreases la - i,
    {
        proof {
            assert(parent(a@)[i as int] == a.components@[i as int]@);
            assert(parent(b@)[i as int] == b.components@[i as int]@);
        }
        if !crate::text::same(a.components[i].as_str(), b.components[i].as_str()) {
            return false;
        }
        i += 1;
    }
    assert(parent(a@) =~= parent(b@));
    true
}

/// A flat set's names are only readable together, so it must live in one
/// directory.
pub fn one_directory(files: &Vec<Candidate>) -> (r: Result<(), String>)
    ensures
        directory_count(founds(files@), files@.len() as int) <= 1 ==> r is Ok,
        directory_count(founds(files@), files@.len() as int) > 1 ==> (r matches Err(e) && e@ == spread_text(
            directory_count(founds(files@), files@.len() as int),
        )),
{
    let ghost fs = founds(files@);
    let mut count: usize = 0;
    let mut i: usize = 0;
    while i < files.len()
        invariant
            0 <= i <= files@.len(),
            fs == founds(files@),
            count == directory_count(fs, i as int),
            count <= i,
        decreases files@.len() - i,
    {
        let mut j: usize = 0;
        let mut seen = false;
        while j < i && !seen
            invariant
                0 <= j <= i < files@.len(),
                fs == founds(files@),
                seen ==> exists|k: int| 0 <= k < i && parent(#[trigger] fs[k]) == parent(fs[i as int]),
                !seen ==> forall|k: int| 0 <= k < j ==> parent(#[trigger] fs[k]) != parent(fs[i as int]),
            decreases i - j + if seen { 0int } else { 1int },
        {
            proof {
                assert(fs[j as int] == files@[j as int]@);
                assert(fs[i as int] == files@[i as int]@);
            }
            if same_parent(&files[j], &files[i]) {
                seen = true;
            } else {
                j += 1;
            }
        }
        if !seen {
            count += 1;
        }
        i += 1;
    }
    if count > 1 {
        let mut e = String::from_str("these files are in ");
        let n = crate::text::decimal_text(count as u64);
        e.append(n.as_str());
        e.append(" directories, and a set read by what its names share is one directory. Audit them one directory at a time.");
        return Err(e);
    }
    Ok(())
}

} // verus!

verus! {

// ---------------------------------------------------------------------
// The three shapes
// ---------------------------------------------------------------------

pub open spec fn names_of(files: Seq<Candidate>) -> Seq<String> {
    files.map_values(|c: Candidate| c.name)
}

/// Each file with its locale.
pub open spec fn zip_places(fs: Seq<Found>, locales: Seq<Option<Seq<char>>>) -> Seq<Place> {
    Seq::new(fs.len(), |i: int| Place { path: fs[i].path, name: fs[i].name, locale: locales[i] })
}

fn copy_option(o: &Option<String>) -> (r: Option<String>)
    ensures
        opt_view(r) == opt_view(*o),
{
    match o {
        Some(s) => Some(s.clone()),
        None => None,
    }
}

fn zip(files: &Vec<Candidate>, locales: &Vec<Option<String>>) -> (r: Vec<Located>)
    requires
        files@.len() == locales@.len(),
    ensures
        places(r@) == zip_places(founds(files@), locales@.map_values(|o: Option<String>| opt_view(o))),
{
    let ghost ls = locales@.map_values(|o: Option<String>| opt_view(o));
    let mut out: Vec<Located> = Vec::new();
    let mut i: usize = 0;
    while i < files.len()
        invariant
            0 <= i <= files@.len(),
            files@.len() == locales@.len(),
            ls == locales@.map_values(|o: Option<String>| opt_view(o)),
            out@.len() == i,
            places(out@) == zip_places(founds(files@), ls).subrange(0, i as int),
        decreases files@.len() - i,
    {
        out.push(Located { path: files[i].path.clone(), name: files[i].name.clone(), locale: copy_option(&locales[i]) });
        proof {
            assert(places(out@)[i as int] == zip_places(founds(files@), ls)[i as int]);
            assert(places(out@) =~= zip_places(founds(files@), ls).subrange(0, i + 1));
        }
        i += 1;
    }
    assert(zip_places(founds(files@), ls).subrange(0, files@.len() as int) =~= zip_places(founds(files@), ls));
    out
}

/// A set whose locales are whatever its names do not share. The names are
/// only readable together, so the set must live in one directory; a name
/// whose leftover is not a language tag is refused by name.
pub fn shared(files: &Vec<Candidate>, layout: &Layout) -> (r: Result<Option<Reading>, String>)
    ensures
        files@.len() == 0 ==> r matches Ok(None),
        files@.len() > 0 && directory_count(founds(files@), files@.len() as int) > 1 ==> (r matches Err(e)
            && e@ == spread_text(directory_count(founds(files@), files@.len() as int))),
        files@.len() > 0 && directory_count(founds(files@), files@.len() as int) <= 1 ==> match spec_locales(names_of(files@)) {
            Ok(ls) => r matches Ok(Some(reading)) && reading.shape == layout.shape && reading.keys_are_source
                == layout.keys_are_source && places(reading.files@) == zip_places(founds(files@), ls),
            Err((i, t)) => r matches Err(e) && utf8(e@) == crate::locale::set_refusal(files@[i].name@, t),
        },
{
    if files.len() == 0 {
        return Ok(None);
    }
    match one_directory(files) {
        Ok(()) => {},
        Err(e) => {
            return Err(e);
        },
    }
    let mut names: Vec<String> = Vec::new();
    let mut i: usize = 0;
    while i < files.len()
        invariant
            0 <= i <= files@.len(),
            names@ == names_of(files@).subrange(0, i as int),
        decreases files@.len() - i,
    {
        names.push(files[i].name.clone());
        assert(names@ =~= names_of(files@).subrange(0, i + 1));
        i += 1;
    }
    assert(names@ =~= names_of(files@));
    proof {
        let st = crate::locale::stems_of(names@);
        crate::locale::lemma_locales_upto(st, crate::locale::spec_shared_prefix(st), names@.len() as int);
    }
    let locales = match crate::locale::locales_of(names.as_slice()) {
        Ok(v) => v,
        Err(e) => {
            return Err(e);
        },
    };
    proof {
        assert(locales@.len() == files@.len()) by {
            assert(locales@.map_values(|o: Option<String>| opt_view(o)).len() == locales@.len());
        }
    }
    Ok(Some(Reading { files: zip(files, &locales), shape: layout.shape, keys_are_source: layout.keys_are_source }))
}

/// The candidates of the groups `[0, n)` that carry the extension, in order.
pub open spec fn grouped(groups: Seq<(Seq<char>, Seq<Found>)>, extension: Seq<char>, n: int) -> Seq<(Seq<char>, Found)>
    decreases n,
{
    if n <= 0 {
        seq![]
    } else {
        grouped(groups, extension, n - 1) + carrying(groups[n - 1].0, groups[n - 1].1, extension, groups[n - 1].1.len() as int)
    }
}

pub open spec fn carrying(tag: Seq<char>, fs: Seq<Found>, extension: Seq<char>, n: int) -> Seq<(Seq<char>, Found)>
    decreases n,
{
    if n <= 0 {
        seq![]
    } else if spec_has_extension(fs[n - 1].name, extension) {
        carrying(tag, fs, extension, n - 1).push((tag, fs[n - 1]))
    } else {
        carrying(tag, fs, extension, n - 1)
    }
}

/// The distinct names among the first `n`, in the order found.
pub open spec fn distinct_names(fs: Seq<(Seq<char>, Found)>, n: int) -> Seq<Seq<char>>
    decreases n,
{
    if n <= 0 {
        seq![]
    } else if distinct_names(fs, n - 1).contains(fs[n - 1].1.name) {
        distinct_names(fs, n - 1)
    } else {
        distinct_names(fs, n - 1).push(fs[n - 1].1.name)
    }
}

/// A namespaced file, named `<locale>/<file>` because the base names
/// collide across locales.
pub open spec fn in_locale(tag: Seq<char>, f: Found) -> Place {
    Place { path: f.path, name: tag + "/"@ + f.name, locale: crate::locale::canonical_text(utf8(tag)) }
}

pub open spec fn namespaces_text(names: Seq<Seq<char>>) -> Seq<char> {
    "this set has "@ + decimal(names.len()) + " namespaces ("@ + joined_with(crate::text::in_order(names), ", "@)
        + ") and a namespace is its own set. Name one namespace's files."@
}

pub open spec fn group_views(groups: Seq<(String, Vec<Candidate>)>) -> Seq<(Seq<char>, Seq<Found>)> {
    groups.map_values(|g: (String, Vec<Candidate>)| (g.0@, founds(g.1@)))
}

/// `<root>/<locale>/<namespace>.json`, given each locale directory's name
/// and the catalogues directly in it, directories in order. One namespace
/// is one set; several are named, sorted, and refused, because auditing
/// them together would compare `common.json` against `errors.json`.
pub fn namespaced(groups: &Vec<(String, Vec<Candidate>)>, extension: &str, layout: &Layout) -> (r: Result<Option<Reading>, String>)
    ensures
        ({
            let files = grouped(group_views(groups@), extension@, groups@.len() as int);
            let names = distinct_names(files, files.len() as int);
            &&& files.len() == 0 ==> (r matches Ok(None))
            &&& files.len() > 0 && names.len() > 1 ==> (r matches Err(e) && e@ == namespaces_text(names))
            &&& files.len() > 0 && names.len() <= 1 ==> (r matches Ok(Some(reading)) && reading.shape == layout.shape
                && reading.keys_are_source == layout.keys_are_source && places(reading.files@) == files.map_values(
                |p: (Seq<char>, Found)| in_locale(p.0, p.1),
            ))
        }),
{
    let ghost gs = group_views(groups@);
    let mut files: Vec<Located> = Vec::new();
    let mut namespaces: Vec<String> = Vec::new();
    let ghost mut found: Seq<(Seq<char>, Found)> = seq![];
    let mut g: usize = 0;
    while g < groups.len()
        invariant
            0 <= g <= groups@.len(),
            gs == group_views(groups@),
            found == grouped(gs, extension@, g as int),
            places(files@) == found.map_values(|p: (Seq<char>, Found)| in_locale(p.0, p.1)),
            texts(namespaces@) == distinct_names(found, found.len() as int),
        decreases groups@.len() - g,
    {
        let tag = groups[g].0.as_str();
        let candidates = &groups[g].1;
        let ghost start = found;
        proof {
            assert(gs[g as int] == (tag@, founds(candidates@)));
        }
        let mut k: usize = 0;
        while k < candidates.len()
            invariant
                0 <= k <= candidates@.len(),
                gs == group_views(groups@),
                gs[g as int] == (tag@, founds(candidates@)),
                found == start + carrying(tag@, founds(candidates@), extension@, k as int),
                places(files@) == found.map_values(|p: (Seq<char>, Found)| in_locale(p.0, p.1)),
                texts(namespaces@) == distinct_names(found, found.len() as int),
            decreases candidates@.len() - k,
        {
            let candidate = &candidates[k];
            proof {
                assert(founds(candidates@)[k as int] == candidate@);
            }
            if has_extension(candidate.name.as_str(), extension) {
                let ghost before = found;
                let ghost before_files = places(files@);
                let mut name = String::from_str(tag);
                name.append("/");
                name.append(candidate.name.as_str());
                files.push(Located { path: candidate.path.clone(), name, locale: crate::locale::canonicalise(tag) });
                proof {
                    found = found.push((tag@, candidate@));
                    assert(places(files@) =~= before_files.push(in_locale(tag@, candidate@)));
                    assert(found.map_values(|p: (Seq<char>, Found)| in_locale(p.0, p.1)) =~= before.map_values(|p: (Seq<char>, Found)| in_locale(p.0, p.1)).push(in_locale(tag@, candidate@)));
                    assert(found.drop_last() =~= before);
                    assert(start + carrying(tag@, founds(candidates@), extension@, k + 1) =~= found);
                }
                let mut j: usize = 0;
                while j < namespaces.len() && !crate::text::same(namespaces[j].as_str(), candidate.name.as_str())
                    invariant
                        0 <= j <= namespaces@.len(),
                        forall|q: int| 0 <= q < j ==> texts(namespaces@)[q] != candidate.name@,
                    decreases namespaces@.len() - j,
                {
                    j += 1;
                }
                proof {
                    let d = distinct_names(before, before.len() as int);
                    assert(distinct_names(found, found.len() as int) == if d.contains(candidate.name@) { d } else { d.push(candidate.name@) }) by {
                        assert(found[found.len() - 1].1.name == candidate.name@);
                        assert forall|m: int| 0 <= m <= before.len() implies distinct_names(found, m) == distinct_names(before, m) by {
                            lemma_distinct_prefix(found, before, m);
                        }
                    }
                    if j < namespaces@.len() {
                        assert(texts(namespaces@)[j as int] == candidate.name@);
                        assert(d.contains(candidate.name@));
                    } else {
                        assert(!d.contains(candidate.name@));
                    }
                }
                if j == namespaces.len() {
                    namespaces.push(candidate.name.clone());
                    assert(texts(namespaces@) =~= distinct_names(found, found.len() as int));
                }
            } else {
                assert(start + carrying(tag@, founds(candidates@), extension@, k + 1) =~= found);
            }
            k += 1;
        }
        proof {
            assert(grouped(gs, extension@, g + 1) =~= start + carrying(tag@, founds(candidates@), extension@, candidates@.len() as int));
        }
        g += 1;
    }
    if files.len() == 0 {
        return Ok(None);
    }
    if namespaces.len() > 1 {
        let sorted = crate::text::sort_distinct(&namespaces);
        proof {
            crate::text::lemma_in_order(texts(namespaces@), texts(sorted@));
        }
        let mut e = String::from_str("this set has ");
        let n = crate::text::decimal_text(namespaces.len() as u64);
        e.append(n.as_str());
        e.append(" namespaces (");
        let j = crate::text::join(&sorted, ", ");
        e.append(j.as_str());
        e.append(") and a namespace is its own set. Name one namespace's files.");
        return Err(e);
    }
    Ok(Some(Reading { files, shape: layout.shape, keys_are_source: layout.keys_are_source }))
}

proof fn lemma_distinct_prefix(a: Seq<(Seq<char>, Found)>, b: Seq<(Seq<char>, Found)>, m: int)
    requires
        0 <= m <= b.len(),
        b.len() <= a.len(),
        forall|i: int| 0 <= i < b.len() ==> a[i] == b[i],
    ensures
        distinct_names(a, m) == distinct_names(b, m),
    decreases m,
{
    if m > 0 {
        lemma_distinct_prefix(a, b, m - 1);
    }
}

} // verus!

verus! {

/// Path order: component by component, each in byte order, a proper
/// prefix first.
pub open spec fn path_less(a: Seq<Seq<char>>, b: Seq<Seq<char>>) -> bool
    decreases a.len(),
{
    if a.len() == 0 {
        b.len() > 0
    } else if b.len() == 0 {
        false
    } else if a[0] != b[0] {
        crate::text::byte_less(utf8(a[0]), utf8(b[0]))
    } else {
        path_less(a.drop_first(), b.drop_first())
    }
}

/// Whether path `a` sorts before path `b`.
pub fn path_precedes(a: &Vec<String>, b: &Vec<String>) -> (r: bool)
    ensures
        r == path_less(texts(a@), texts(b@)),
{
    let ghost x = texts(a@);
    let ghost y = texts(b@);
    let mut i: usize = 0;
    assert(x.subrange(0, x.len() as int) =~= x);
    assert(y.subrange(0, y.len() as int) =~= y);
    while i < a.len() && i < b.len()
        invariant
            0 <= i <= a@.len(),
            i <= b@.len(),
            x == texts(a@),
            y == texts(b@),
            path_less(x, y) == path_less(x.subrange(i as int, x.len() as int), y.subrange(i as int, y.len() as int)),
        decreases a@.len() - i,
    {
        let ghost xs = x.subrange(i as int, x.len() as int);
        let ghost ys = y.subrange(i as int, y.len() as int);
        assert(xs[0] == a@[i as int]@ && ys[0] == b@[i as int]@);
        if !crate::text::same(a[i].as_str(), b[i].as_str()) {
            return crate::text::precedes(a[i].as_str().as_bytes(), b[i].as_str().as_bytes());
        }
        assert(xs.drop_first() =~= x.subrange(i + 1, x.len() as int));
        assert(ys.drop_first() =~= y.subrange(i + 1, y.len() as int));
        i += 1;
    }
    i == a.len() && i < b.len()
}

pub open spec fn starts_bytes(b: Seq<u8>, p: Seq<u8>) -> bool {
    p.len() <= b.len() && b.subrange(0, p.len() as int) == p
}

/// The first `n` files whose name starts with `prefix`.
pub open spec fn chosen(fs: Seq<Found>, prefix: Seq<char>, n: int) -> Seq<Found>
    decreases n,
{
    if n <= 0 {
        seq![]
    } else if starts_bytes(utf8(fs[n - 1].name), utf8(prefix)) {
        chosen(fs, prefix, n - 1).push(fs[n - 1])
    } else {
        chosen(fs, prefix, n - 1)
    }
}

/// Where `b` goes among `sel`, counting from `k`: before the first file
/// that does not sort before it.
pub open spec fn insert_point(sel: Seq<Found>, b: Found, k: int) -> int
    decreases sel.len() - k,
{
    if k < 0 || k >= sel.len() || !path_less(sel[k].components, b.components) {
        k
    } else {
        insert_point(sel, b, k + 1)
    }
}

/// `sel` with `b` in its place, unless that place already holds the same
/// path.
pub open spec fn placed(sel: Seq<Found>, b: Found) -> Seq<Found> {
    let p = insert_point(sel, b, 0);
    if p < sel.len() && sel[p].components == b.components {
        sel
    } else {
        sel.insert(p, b)
    }
}

/// The set with its base file added, where the set lacks one by that name
/// and one was found on the way up.
pub open spec fn with_base(sel: Seq<Found>, base: Option<Found>, base_name: Seq<char>) -> Seq<Found> {
    match base {
        Some(b) => if (exists|k: int| 0 <= k < sel.len() && (#[trigger] sel[k]).name == base_name) {
            sel
        } else {
            placed(sel, b)
        },
        None => sel,
    }
}

/// The locales of the first `n` files under a known prefix, or the first
/// refusal, as `from_prefix` reads each name.
pub open spec fn prefix_locales(fs: Seq<Found>, prefix: Seq<char>, n: int) -> Result<
    Seq<Option<Seq<char>>>,
    (int, Option<Seq<u8>>),
>
    decreases n,
{
    if n <= 0 {
        Ok(seq![])
    } else {
        match prefix_locales(fs, prefix, n - 1) {
            Err(e) => Err(e),
            Ok(v) => match spec_from_prefix(utf8(fs[n - 1].name), utf8(prefix)) {
                Ok(l) => Ok(v.push(l)),
                Err(t) => Err((n - 1, t)),
            },
        }
    }
}

pub open spec fn found_option(o: Option<Candidate>) -> Option<Found> {
    match o {
        Some(c) => Some(c@),
        None => None,
    }
}

pub(crate) fn copy_candidate(c: &Candidate) -> (r: Candidate)
    ensures
        r@ == c@,
{
    let mut components: Vec<String> = Vec::new();
    let mut i: usize = 0;
    while i < c.components.len()
        invariant
            0 <= i <= c.components@.len(),
            components@.len() == i,
            texts(components@) == texts(c.components@).subrange(0, i as int),
        decreases c.components@.len() - i,
    {
        components.push(c.components[i].clone());
        assert(texts(components@)[i as int] == texts(c.components@)[i as int]);
        assert(texts(components@) =~= texts(c.components@).subrange(0, i + 1));
        i += 1;
    }
    assert(texts(c.components@).subrange(0, c.components@.len() as int) =~= texts(c.components@));
    Candidate { path: c.path.clone(), components, name: c.name.clone() }
}

fn same_path(a: &Candidate, b: &Candidate) -> (r: bool)
    ensures
        r == (a@.components == b@.components),
{
    if a.components.len() != b.components.len() {
        assert(a@.components.len() != b@.components.len());
        return false;
    }
    let mut i: usize = 0;
    while i < a.components.len()
        invariant
            a.components@.len() == b.components@.len(),
            0 <= i <= a.components@.len(),
            forall|k: int| 0 <= k < i ==> #[trigger] a@.components[k] == b@.components[k],
        decreases a.components@.len() - i,
    {
        if !crate::text::same(a.components[i].as_str(), b.components[i].as_str()) {
            assert(a@.components[i as int] != b@.components[i as int]);
            return false;
        }
        i += 1;
    }
    assert(a@.components =~= b@.components);
    true
}

/// `b` put in its place among `sel`, which is in path order: before the
/// first file that does not sort before it, unless that file is `b`'s
/// path already.
pub fn place(sel: &mut Vec<Candidate>, b: Candidate)
    ensures
        founds(final(sel)@) == placed(founds(old(sel)@), b@),
{
    let ghost start = founds(sel@);
    let mut p: usize = 0;
    while p < sel.len() && path_precedes(&sel[p].components, &b.components)
        invariant
            0 <= p <= sel@.len(),
            founds(sel@) == start,
            insert_point(start, b@, 0) == insert_point(start, b@, p as int),
        decreases sel@.len() - p,
    {
        assert(start[p as int] == sel@[p as int]@);
        p += 1;
    }
    proof {
        if p < sel@.len() {
            assert(start[p as int] == sel@[p as int]@);
        }
    }
    if !(p < sel.len() && same_path(&sel[p], &b)) {
        let ghost b_view = b@;
        sel.insert(p, b);
        assert(founds(sel@) =~= start.insert(p as int, b_view));
    } else {
        assert(start[p as int] == sel@[p as int]@);
    }
}

/// A set whose convention writes a **known** prefix, which makes each name
/// readable on its own, so the set may span two directories: every VS Code
/// extension keeps `package.nls.json` at its root and its translations
/// wherever the build wants them. `files` are the candidates found, in
/// path order; `base` is `<prefix>.<extension>` as found on the way up,
/// added when the set lacks one.
pub fn fixed(
    files: &Vec<Candidate>,
    base: Option<Candidate>,
    prefix: &str,
    extension: &str,
    layout: &Layout,
) -> (r: Result<Option<Reading>, String>)
    ensures
        ({
            let sel = chosen(founds(files@), prefix@, files@.len() as int);
            let all = with_base(sel, found_option(base), prefix@ + "."@ + extension@);
            &&& sel.len() == 0 ==> (r matches Ok(None))
            &&& sel.len() > 0 ==> match prefix_locales(all, prefix@, all.len() as int) {
                Ok(ls) => r matches Ok(Some(reading)) && reading.shape == layout.shape
                    && reading.keys_are_source == layout.keys_are_source && places(reading.files@)
                    == zip_places(all, ls),
                Err((i, None)) => r matches Err(e) && utf8(e@) == crate::locale::foreign_refusal(all[i].name, prefix@),
                Err((i, Some(t))) => r matches Err(e) && utf8(e@) == crate::locale::tag_refusal(all[i].name, t),
            }
        }),
{
    let ghost fs = founds(files@);
    let ghost base_view = found_option(base);
    let mut sel: Vec<Candidate> = Vec::new();
    let mut i: usize = 0;
    while i < files.len()
        invariant
            0 <= i <= files@.len(),
            fs == founds(files@),
            founds(sel@) == chosen(fs, prefix@, i as int),
        decreases files@.len() - i,
    {
        proof {
            assert(fs[i as int] == files@[i as int]@);
        }
        if crate::text::starts_with(files[i].name.as_str().as_bytes(), prefix.as_bytes()) {
            let ghost before = founds(sel@);
            sel.push(copy_candidate(&files[i]));
            assert(founds(sel@) =~= before.push(fs[i as int]));
        }
        i += 1;
    }
    if sel.len() == 0 {
        return Ok(None);
    }
    let ghost chosen_set = founds(sel@);
    let mut base_name = String::from_str(prefix);
    base_name.append(".");
    base_name.append(extension);
    let mut k: usize = 0;
    while k < sel.len() && !crate::text::same(sel[k].name.as_str(), base_name.as_str())
        invariant
            0 <= k <= sel@.len(),
            forall|q: int| 0 <= q < k ==> (#[trigger] founds(sel@)[q]).name != base_name@,
        decreases sel@.len() - k,
    {
        k += 1;
    }
    proof {
        if k < sel@.len() {
            assert(founds(sel@)[k as int].name == base_name@);
        }
    }
    if k == sel.len() {
        if let Some(b) = base {
            place(&mut sel, b);
        }
    }
    let ghost all = founds(sel@);
    proof {
        assert(all == with_base(chosen_set, base_view, prefix@ + "."@ + extension@));
    }
    let locales = match read_prefixed(&sel, prefix) {
        Ok(v) => v,
        Err(e) => {
            return Err(e);
        },
    };
    Ok(Some(Reading { files: zip(&sel, &locales), shape: layout.shape, keys_are_source: layout.keys_are_source }))
}


/// The locale of each file under a known prefix, or the first refusal.
fn read_prefixed(sel: &Vec<Candidate>, prefix: &str) -> (r: Result<Vec<Option<String>>, String>)
    ensures
        match prefix_locales(founds(sel@), prefix@, sel@.len() as int) {
            Ok(ls) => r matches Ok(v) && v@.len() == sel@.len() && v@.map_values(|o: Option<String>| opt_view(o)) == ls,
            Err((i, None)) => r matches Err(e) && 0 <= i < sel@.len() && utf8(e@) == crate::locale::foreign_refusal(sel@[i].name@, prefix@),
            Err((i, Some(t))) => r matches Err(e) && 0 <= i < sel@.len() && utf8(e@) == crate::locale::tag_refusal(sel@[i].name@, t),
        },
{
    let ghost all = founds(sel@);
    let mut locales: Vec<Option<String>> = Vec::new();
    assert(locales@.map_values(|o: Option<String>| opt_view(o)) =~= Seq::<Option<Seq<char>>>::empty());
    let mut j: usize = 0;
    while j < sel.len()
        invariant
            0 <= j <= sel@.len(),
            all == founds(sel@),
            prefix_locales(all, prefix@, j as int) == Ok::<Seq<Option<Seq<char>>>, (int, Option<Seq<u8>>)>(
                locales@.map_values(|o: Option<String>| opt_view(o)),
            ),
            locales@.len() == j,
        decreases sel@.len() - j,
    {
        proof {
            assert(all[j as int] == sel@[j as int]@);
        }
        match crate::locale::from_prefix(sel[j].name.as_str(), prefix) {
            Ok(l) => {
                let ghost before = locales@.map_values(|o: Option<String>| opt_view(o));
                locales.push(l);
                assert(locales@.map_values(|o: Option<String>| opt_view(o)) =~= before.push(opt_view(l)));
            },
            Err(e) => {
                proof {
                    assert(prefix_locales(all, prefix@, j + 1) is Err);
                    lemma_prefix_locales_stop(all, prefix@, j + 1, all.len() as int);
                }
                return Err(e);
            },
        }
        j += 1;
    }
    Ok(locales)
}

proof fn lemma_prefix_locales_stop(fs: Seq<Found>, prefix: Seq<char>, n: int, m: int)
    requires
        0 < n <= m,
        prefix_locales(fs, prefix, n) is Err,
    ensures
        prefix_locales(fs, prefix, m) == prefix_locales(fs, prefix, n),
    decreases m - n,
{
    if m > n {
        lemma_prefix_locales_stop(fs, prefix, n, m - 1);
    }
}

} // verus!

verus! {

/// The first layout that read the files.
pub open spec fn first_read(outcomes: Seq<Result<Option<Reading>, String>>, n: int) -> Option<int>
    decreases n,
{
    if n <= 0 {
        None
    } else {
        match first_read(outcomes, n - 1) {
            Some(i) => Some(i),
            None => if outcomes[n - 1] matches Ok(Some(_)) {
                Some(n - 1)
            } else {
                None
            },
        }
    }
}

/// The last layout that refused the files.
pub open spec fn last_refusal(outcomes: Seq<Result<Option<Reading>, String>>, n: int) -> Option<int>
    decreases n,
{
    if n <= 0 {
        None
    } else if outcomes[n - 1] is Err {
        Some(n - 1)
    } else {
        last_refusal(outcomes, n - 1)
    }
}

pub open spec fn unread_text(id: Id) -> Seq<char> {
    id_name(id)@ + " was identified, but none of its layouts reads the files here ("@ + joined_with(
        spec_layouts(id).map_values(|l: Layout| shape_text(l.shape)),
        ", "@,
    ) + ")."@
}

/// The reading of a set, given what each of the library's layouts made of
/// the files, in the library's order: the first that read them. Failing
/// that, the last refusal, because another layout of the same library may
/// still read the files cleanly and only if none does is a refusal the
/// answer. Failing that, nothing at all where no layout found a catalogue
/// — a directory with none in it is not a malformed question — and
/// otherwise a refusal that names every layout tried.
pub fn settle(library: Id, outcomes: Vec<Result<Option<Reading>, String>>, nothing_found: bool) -> (r: Result<Reading, String>)
    requires
        outcomes@.len() == spec_layouts(library).len(),
    ensures
        match first_read(outcomes@, outcomes@.len() as int) {
            Some(i) => outcomes@[i] matches Ok(Some(x)) && r == Ok::<Reading, String>(x),
            None => match last_refusal(outcomes@, outcomes@.len() as int) {
                Some(i) => outcomes@[i] matches Err(x) && r matches Err(e) && e@ == x@,
                None => if nothing_found {
                    r matches Ok(x) && x.files@.len() == 0 && x.shape == spec_layouts(library)[0].shape
                        && x.keys_are_source == spec_layouts(library)[0].keys_are_source
                } else {
                    r matches Err(e) && e@ == unread_text(library)
                },
            },
        },
{
    let ghost all = outcomes@;
    let mut outcomes = outcomes;
    let mut i: usize = 0;
    while i < outcomes.len() && !matches!(outcomes[i], Ok(Some(_)))
        invariant
            0 <= i <= outcomes@.len(),
            outcomes@ == all,
            first_read(all, i as int) is None,
        decreases outcomes@.len() - i,
    {
        i += 1;
    }
    if i < outcomes.len() {
        proof {
            assert(first_read(all, i + 1) == Some(i as int));
            lemma_first_read_stays(all, i + 1, all.len() as int);
        }
        let chosen = outcomes.remove(i);
        return match chosen {
            Ok(Some(reading)) => Ok(reading),
            Ok(None) => Err(String::new()),
            Err(e) => Err(e),
        };
    }
    let mut n = outcomes.len();
    while n > 0 && !outcomes[n - 1].is_err()
        invariant
            0 <= n <= outcomes@.len(),
            outcomes@ == all,
            last_refusal(all, all.len() as int) == last_refusal(all, n as int),
        decreases n,
    {
        n -= 1;
    }
    if n > 0 {
        let chosen = outcomes.remove(n - 1);
        return match chosen {
            Err(e) => Err(e),
            Ok(_) => Err(String::new()),
        };
    }
    let row = library.library();
    let layouts = row.layouts();
    if nothing_found {
        return Ok(Reading { files: Vec::new(), shape: layouts[0].shape, keys_are_source: layouts[0].keys_are_source });
    }
    let mut shapes: Vec<String> = Vec::new();
    let mut k: usize = 0;
    while k < layouts.len()
        invariant
            0 <= k <= layouts@.len(),
            layouts@ == spec_layouts(library),
            shapes@.len() == k,
            texts(shapes@) == spec_layouts(library).subrange(0, k as int).map_values(|l: Layout| shape_text(l.shape)),
        decreases layouts@.len() - k,
    {
        let ghost before = texts(shapes@);
        shapes.push(describe_shape(layouts[k].shape));
        assert(texts(shapes@) =~= before.push(shape_text(spec_layouts(library)[k as int].shape)));
        assert(spec_layouts(library).subrange(0, k + 1).map_values(|l: Layout| shape_text(l.shape)) =~= spec_layouts(library).subrange(0, k as int).map_values(|l: Layout| shape_text(l.shape)).push(shape_text(spec_layouts(library)[k as int].shape)));
        k += 1;
    }
    assert(spec_layouts(library).subrange(0, layouts@.len() as int) =~= spec_layouts(library));
    let mut e = String::from_str(library.as_str());
    e.append(" was identified, but none of its layouts reads the files here (");
    let joined = crate::text::join(&shapes, ", ");
    e.append(joined.as_str());
    e.append(").");
    Err(e)
}

proof fn lemma_first_read_stays(outcomes: Seq<Result<Option<Reading>, String>>, n: int, m: int)
    requires
        n <= m,
        first_read(outcomes, n) is Some,
    ensures
        first_read(outcomes, m) == first_read(outcomes, n),
    decreases m - n,
{
    if m > n {
        lemma_first_read_stays(outcomes, n, m - 1);
    }
}

} // verus!

verus! {

/// How far up from the catalogues a manifest, a config file or a base
/// catalogue is looked for: a monorepo's declaring manifest can sit well
/// above the catalogues, but not at the filesystem root.
pub const ANCESTORS: usize = 8;

pub open spec fn spec_all_locales(names: Seq<String>) -> bool {
    names.len() > 0 && forall|i: int|
        0 <= i < names.len() ==> (#[trigger] crate::locale::canonical_text(utf8(names[i]@))) is Some
}

/// Whether a directory's subdirectories make a namespaced set: there is at
/// least one, and **every** one is named for a locale. One that is not
/// means this is not a namespaced set, which is what stops an ordinary
/// source tree being read as one.
pub fn all_locales(names: &Vec<String>) -> (r: bool)
    ensures
        r == spec_all_locales(names@),
{
    if names.len() == 0 {
        return false;
    }
    let mut i: usize = 0;
    while i < names.len()
        invariant
            0 <= i <= names@.len(),
            forall|k: int| 0 <= k < i ==> (#[trigger] crate::locale::canonical_text(utf8(names@[k]@))) is Some,
        decreases names@.len() - i,
    {
        if crate::locale::canonicalise(names[i].as_str()).is_none() {
            return false;
        }
        i += 1;
    }
    true
}

} // verus!

verus! {

proof fn lemma_distinct_names(fs: Seq<(Seq<char>, Found)>, n: int)
    requires
        0 <= n <= fs.len(),
    ensures
        forall|j: int| 0 <= j < n ==> distinct_names(fs, n).contains(#[trigger] fs[j].1.name),
        forall|k: int|
            0 <= k < distinct_names(fs, n).len() ==> exists|j: int|
                0 <= j < n && fs[j].1.name == #[trigger] distinct_names(fs, n)[k],
        distinct_names(fs, n).no_duplicates(),
    decreases n,
{
    if n > 0 {
        lemma_distinct_names(fs, n - 1);
        let before = distinct_names(fs, n - 1);
        let x = fs[n - 1].1.name;
        if !before.contains(x) {
            let after = before.push(x);
            assert(after.last() == x);
            assert forall|j: int| 0 <= j < n implies after.contains(#[trigger] fs[j].1.name) by {
                if j < n - 1 {
                    assert(before.contains(fs[j].1.name));
                    let k = choose|k: int| 0 <= k < before.len() && before[k] == fs[j].1.name;
                    assert(after[k] == fs[j].1.name);
                } else {
                    assert(after[before.len() as int] == x);
                }
            }
            assert forall|k: int| 0 <= k < after.len() implies exists|j: int| 0 <= j < n && fs[j].1.name == #[trigger] after[k] by {
                if k < before.len() {
                    assert(after[k] == before[k]);
                } else {
                    assert(after[k] == x);
                }
            }
        }
    }
}

/// One namespace is one set. A namespaced set carrying several is refused,
/// and the refusal counts them and names each one; otherwise each file is
/// reported as `<tag>/<file>` with the directory's tag as its locale. The
/// names a refusal lists are exactly the distinct file names, each once.
pub proof fn law_several_namespaces_are_named(groups: Seq<(Seq<char>, Seq<Found>)>, extension: Seq<char>)
    ensures
        ({
            let files = grouped(groups, extension, groups.len() as int);
            let names = distinct_names(files, files.len() as int);
            &&& names.no_duplicates()
            &&& forall|j: int| 0 <= j < files.len() ==> names.contains(#[trigger] files[j].1.name)
            &&& forall|k: int| 0 <= k < names.len() ==> exists|j: int| 0 <= j < files.len() && files[j].1.name == #[trigger] names[k]
            &&& forall|k: int|
                0 <= k < names.len() ==> crate::text::mentions(namespaces_text(names), #[trigger] names[k])
            &&& crate::text::mentions(namespaces_text(names), decimal(names.len()))
            &&& forall|j: int|
                0 <= j < files.len() ==> (#[trigger] in_locale(files[j].0, files[j].1)).name == files[j].0 + "/"@
                    + files[j].1.name && in_locale(files[j].0, files[j].1).locale == crate::locale::canonical_text(
                    utf8(files[j].0),
                )
        }),
{
    let files = grouped(groups, extension, groups.len() as int);
    let names = distinct_names(files, files.len() as int);
    lemma_distinct_names(files, files.len() as int);
    let witness = crate::text::lemma_sorted_arrangement(names);
    let sorted = crate::text::in_order(names);
    assert(crate::text::ascending(sorted) && sorted.to_set() == names.to_set());
    let head = "this set has "@ + decimal(names.len()) + " namespaces ("@;
    let listing = joined_with(sorted, ", "@);
    let tail = ") and a namespace is its own set. Name one namespace's files."@;
    assert(namespaces_text(names) == head + listing + tail);
    assert forall|k: int| 0 <= k < names.len() implies crate::text::mentions(namespaces_text(names), #[trigger] names[k]) by {
        assert(names.to_set().contains(names[k]));
        assert(sorted.to_set().contains(names[k]));
        let q = choose|q: int| 0 <= q < sorted.len() && sorted[q] == names[k];
        crate::text::lemma_joined_mentions(sorted, ", "@, q);
        crate::text::lemma_mentions_within(head, listing, tail, names[k]);
    }
    let count = decimal(names.len());
    let pre = "this set has "@;
    let j0: int = pre.len() as int;
    let whole = namespaces_text(names);
    assert(whole == pre + count + (" namespaces ("@ + listing + tail));
    assert(whole.subrange(j0, j0 + count.len()) =~= count);
    assert(crate::text::mentions(whole, count));
}

} // verus!

verus! {

/// The directories the first `n` candidates sit in.
pub open spec fn parents_upto(fs: Seq<Found>, n: int) -> Set<Seq<Seq<char>>> {
    fs.subrange(0, n).map_values(|f: Found| parent(f)).to_set()
}

proof fn lemma_directory_count(fs: Seq<Found>, n: int)
    requires
        0 <= n <= fs.len(),
    ensures
        parents_upto(fs, n).finite(),
        directory_count(fs, n) == parents_upto(fs, n).len(),
    decreases n,
{
    vstd::seq_lib::seq_to_set_is_finite(fs.subrange(0, n).map_values(|f: Found| parent(f)));
    if n == 0 {
        assert(parents_upto(fs, 0) =~= Set::<Seq<Seq<char>>>::empty());
    } else {
        lemma_directory_count(fs, n - 1);
        let before = parents_upto(fs, n - 1);
        let x = parent(fs[n - 1]);
        let s = fs.subrange(0, n - 1).map_values(|f: Found| parent(f));
        assert(fs.subrange(0, n).map_values(|f: Found| parent(f)) =~= s.push(x));
        s.lemma_push_to_set_commute(x);
        assert(parents_upto(fs, n) == before.insert(x));
        vstd::set::axiom_set_insert_len(before, x);
        if exists|j: int| 0 <= j < n - 1 && parent(#[trigger] fs[j]) == x {
            let j = choose|j: int| 0 <= j < n - 1 && parent(#[trigger] fs[j]) == x;
            assert(s[j] == x);
            assert(before.contains(x));
        } else {
            if before.contains(x) {
                let j = choose|j: int| 0 <= j < s.len() && s[j] == x;
                assert(parent(fs[j]) == x);
            }
        }
    }
}

/// A set read by what its names share is one directory: the files are
/// accepted exactly when they sit in at most one directory, and otherwise
/// the refusal states how many distinct directories they sit in.
pub proof fn law_one_directory_counts_distinct_parents(fs: Seq<Found>)
    ensures
        parents_upto(fs, fs.len() as int).finite(),
        directory_count(fs, fs.len() as int) == parents_upto(fs, fs.len() as int).len(),
        directory_count(fs, fs.len() as int) <= 1 <==> forall|a: int, b: int|
            0 <= a < fs.len() && 0 <= b < fs.len() ==> parent(#[trigger] fs[a]) == parent(#[trigger] fs[b]),
{
    let n = fs.len() as int;
    lemma_directory_count(fs, n);
    let s = fs.map_values(|f: Found| parent(f));
    assert(fs.subrange(0, n) =~= fs);
    let ps = parents_upto(fs, n);
    if ps.len() <= 1 {
        assert forall|a: int, b: int| 0 <= a < fs.len() && 0 <= b < fs.len() implies parent(#[trigger] fs[a]) == parent(
            #[trigger] fs[b],
        ) by {
            assert(s[a] == parent(fs[a]) && s[b] == parent(fs[b]));
            assert(ps.contains(parent(fs[a])) && ps.contains(parent(fs[b])));
            if parent(fs[a]) != parent(fs[b]) {
                vstd::set_lib::lemma_set_subset_finite(ps, set![parent(fs[a]), parent(fs[b])]);
                assert(set![parent(fs[a]), parent(fs[b])].len() == 2);
                vstd::set_lib::lemma_len_subset(set![parent(fs[a]), parent(fs[b])], ps);
            }
        }
    } else {
        let x = ps.choose();
        assert(ps.contains(x));
        let y = ps.remove(x).choose();
        vstd::set::axiom_set_remove_len(ps, x);
        assert(ps.remove(x).len() > 0);
        vstd::set_lib::lemma_set_empty_equivalency_len(ps.remove(x));
        assert(ps.remove(x).contains(y));
        let a = choose|a: int| 0 <= a < s.len() && s[a] == x;
        let b = choose|b: int| 0 <= b < s.len() && s[b] == y;
        assert(parent(fs[a]) != parent(fs[b]));
    }
}

} // verus!
