//! Reading a JSON catalogue in a way a plain deserialize cannot.
//!
//! A loader folds a duplicate key into the last one and says nothing,
//! which is exactly the defect `duplicate-key-within-file` exists to
//! find: the second translation of a key is dead text nobody will ever
//! see. A `Node` keeps every occurrence in file order, and this module
//! reports the fold rather than performing it silently.
//!
//! **Nested and flat are the same catalogue.** `{"a":{"b":"x"}}` and
//! `{"a.b":"x"}` both flatten to the path `a.b`.
//!
//! Values are read, never carried: `Entry` holds a leaf's text only so
//! the audit can ask whether it is empty and whether it is byte-identical
//! to the source.
//!
//! **This module knows nothing about any library.** It reports what is in
//! the document, metadata keys included; which of those keys are metadata
//! is the identified library's answer, applied afterwards.

use vstd::prelude::*;
use vstd::hash_map::StringHashMap;

use crate::text::{same, utf8};

verus! {

/// What a path holds, which is the thing `structure-mismatch` compares.
///
/// `Other` is a number, a boolean, `null` or an array. None of those is a
/// translatable string.
#[derive(Debug, Clone, Copy, PartialEq, Eq, Structural)]
pub enum Shape {
    Text,
    Object,
    Other,
}

/// A JSON document as written: every entry of an object, duplicates
/// included and in file order.
pub enum Node {
    Text(String),
    Object(Vec<(String, Node)>),
    Other,
}

#[derive(Debug, Clone, PartialEq, Eq)]
pub struct Entry {
    pub key: String,
    pub shape: Shape,
    /// The leaf's text, for the two questions the comparator may ask of
    /// it: is it empty, and is it byte-identical to the source's.
    pub text: Option<String>,
}

#[derive(Debug, Clone, PartialEq, Eq)]
pub struct Duplicate {
    pub key: String,
    pub occurrences: usize,
}

#[derive(Debug, Clone, PartialEq, Eq)]
pub struct Parsed {
    pub entries: Vec<Entry>,
    pub duplicates: Vec<Duplicate>,
}

/// An entry as the specification sees it.
pub struct EntryModel {
    pub key: Seq<char>,
    pub shape: Shape,
    pub text: Option<Seq<char>>,
}

/// A flattened catalogue as the specification sees it: its paths, and
/// each name written more than once with how many times.
pub struct Flat {
    pub entries: Seq<EntryModel>,
    pub duplicates: Seq<(Seq<char>, nat)>,
}

impl View for Entry {
    type V = EntryModel;

    open spec fn view(&self) -> EntryModel {
        EntryModel {
            key: self.key@,
            shape: self.shape,
            text: match self.text {
                Some(t) => Some(t@),
                None => None,
            },
        }
    }
}

impl Entry {
    /// The same entry, field by field.
    pub fn copied(&self) -> (r: Entry)
        ensures
            r@ == self@,
    {
        Entry {
            key: self.key.clone(),
            shape: self.shape,
            text: match &self.text {
                Some(t) => Some(t.clone()),
                None => None,
            },
        }
    }
}

impl Duplicate {
    /// The same duplicate, field by field.
    pub fn copied(&self) -> (r: Duplicate)
        ensures
            r.key@ == self.key@,
            r.occurrences == self.occurrences,
    {
        Duplicate { key: self.key.clone(), occurrences: self.occurrences }
    }
}

impl View for Parsed {
    type V = Flat;

    open spec fn view(&self) -> Flat {
        Flat {
            entries: self.entries@.map_values(|e: Entry| e@),
            duplicates: self.duplicates@.map_values(|d: Duplicate| (d.key@, d.occurrences as nat)),
        }
    }
}

/// The dotted path of `name` under `prefix`.
pub open spec fn spec_path(prefix: Seq<char>, name: Seq<char>) -> Seq<char> {
    if prefix.len() == 0 {
        name
    } else {
        prefix + seq!['.'] + name
    }
}

/// The distinct names of `object[..n]`, in first-appearance order, each
/// with the index of its **last** occurrence and how many times it
/// occurs.
///
/// Last, because that is what every JSON loader hands the application.
pub open spec fn resolved(object: Seq<(String, Node)>, n: int) -> Seq<(int, nat)>
    decreases n,
{
    if n <= 0 {
        seq![]
    } else {
        let before = resolved(object, n - 1);
        let k = position(object, before, object[n - 1].0@);
        if k < before.len() {
            before.update(k, (n - 1, before[k].1 + 1))
        } else {
            before.push((n - 1, 1nat))
        }
    }
}

/// Where in `resolution` the name `name` sits, or its length when absent.
pub open spec fn position(
    object: Seq<(String, Node)>,
    resolution: Seq<(int, nat)>,
    name: Seq<char>,
) -> int {
    if exists|k: int| 0 <= k < resolution.len() && object[resolution[k].0].0@ == name {
        choose|k: int| 0 <= k < resolution.len() && object[resolution[k].0].0@ == name
    } else {
        resolution.len() as int
    }
}

/// Every index a resolution holds is an index of the object, and the
/// names it holds are distinct.
pub open spec fn well_resolved(object: Seq<(String, Node)>, resolution: Seq<(int, nat)>, n: int) -> bool {
    &&& forall|k: int| 0 <= k < resolution.len() ==> 0 <= #[trigger] resolution[k].0 < n
    &&& forall|k: int| 0 <= k < resolution.len() ==> 1 <= #[trigger] resolution[k].1 <= n
    &&& forall|a: int, b: int|
        0 <= a < b < resolution.len() ==> object[#[trigger] resolution[a].0].0@ != object[#[trigger] resolution[b].0].0@
}

pub proof fn lemma_resolved(object: Seq<(String, Node)>, n: int)
    requires
        0 <= n <= object.len(),
    ensures
        well_resolved(object, resolved(object, n), n),
        resolved(object, n).len() <= n,
    decreases n,
{
    if n > 0 {
        lemma_resolved(object, n - 1);
        let before = resolved(object, n - 1);
        let name = object[n - 1].0@;
        let k = position(object, before, name);
        if k < before.len() {
            let after = before.update(k, (n - 1, before[k].1 + 1));
            assert forall|a: int, b: int| 0 <= a < b < after.len() implies object[#[trigger] after[a].0].0@
                != object[#[trigger] after[b].0].0@ by {
                if a == k {
                    assert(object[after[a].0].0@ == object[before[a].0].0@);
                }
                if b == k {
                    assert(object[after[b].0].0@ == object[before[b].0].0@);
                }
            }
        } else {
            let after = before.push((n - 1, 1nat));
            assert forall|a: int, b: int| 0 <= a < b < after.len() implies object[#[trigger] after[a].0].0@
                != object[#[trigger] after[b].0].0@ by {
                if b == before.len() {
                    assert(object[after[a].0].0@ != name);
                }
            }
        }
    }
}

/// Each name written more than once under `prefix`, with its count.
pub open spec fn duplicates_of(
    prefix: Seq<char>,
    object: Seq<(String, Node)>,
    resolution: Seq<(int, nat)>,
) -> Seq<(Seq<char>, nat)>
    decreases resolution.len(),
{
    if resolution.len() == 0 {
        seq![]
    } else {
        let rest = duplicates_of(prefix, object, resolution.drop_last());
        let last = resolution.last();
        if last.1 >= 2 {
            rest.push((spec_path(prefix, object[last.0].0@), last.1))
        } else {
            rest
        }
    }
}

/// The flattening of `object` under `prefix`, added to `flat`.
pub open spec fn spec_walk(prefix: Seq<char>, object: Seq<(String, Node)>, flat: Flat) -> Flat
    decreases object, 1nat,
{
    let resolution = resolved(object, object.len() as int);
    let with_duplicates = Flat {
        entries: flat.entries,
        duplicates: flat.duplicates + duplicates_of(prefix, object, resolution),
    };
    spec_walk_from(prefix, object, resolution, 0, with_duplicates)
}

/// The entries of `resolution[i..]`, each followed by what is below it.
pub open spec fn spec_walk_from(
    prefix: Seq<char>,
    object: Seq<(String, Node)>,
    resolution: Seq<(int, nat)>,
    i: int,
    flat: Flat,
) -> Flat
    decreases object, 0nat, resolution.len() - i,
{
    if i < 0 || i >= resolution.len() {
        flat
    } else {
        let at = resolution[i].0;
        if 0 <= at < object.len() {
            let key = spec_path(prefix, object[at].0@);
            let next = match object[at].1 {
                Node::Text(text) => Flat {
                    entries: flat.entries.push(
                        EntryModel { key, shape: Shape::Text, text: Some(text@) },
                    ),
                    duplicates: flat.duplicates,
                },
                Node::Other => Flat {
                    entries: flat.entries.push(EntryModel { key, shape: Shape::Other, text: None }),
                    duplicates: flat.duplicates,
                },
                Node::Object(children) => {
                    let opened = Flat {
                        entries: flat.entries.push(
                            EntryModel { key, shape: Shape::Object, text: None },
                        ),
                        duplicates: flat.duplicates,
                    };
                    spec_walk(key, children@, opened)
                },
            };
            spec_walk_from(prefix, object, resolution, i + 1, next)
        } else {
            flat
        }
    }
}

/// The catalogue a document is, or the refusal a document that is not an
/// object gets.
pub open spec fn spec_parse(root: Node) -> Option<Flat> {
    match root {
        Node::Object(entries) => Some(
            spec_walk(seq![], entries@, Flat { entries: seq![], duplicates: seq![] }),
        ),
        _ => None,
    }
}

/// The dotted path of `name` under `prefix`.
pub fn path(prefix: &str, name: &str) -> (r: String)
    ensures
        r@ == spec_path(prefix@, name@),
{
    if prefix.is_empty() {
        return String::from_str(name);
    }
    let mut r = String::from_str(prefix);
    crate::text::push_char(&mut r, '.');
    r.append(name);
    r
}

/// One entry per distinct name, in first-appearance order, each with the
/// index of the value written **last** for it and how many times it was
/// written.
///
/// Last, because that is what every JSON loader hands the application —
/// reporting the duplicate while comparing the first would answer a
/// question about a file the runtime never sees.
pub fn resolve(object: &Vec<(String, Node)>) -> (r: Vec<(usize, usize)>)
    ensures
        r@.len() == resolved(object@, object@.len() as int).len(),
        forall|k: int|
            0 <= k < r@.len() ==> (#[trigger] r@[k].0 as int, r@[k].1 as nat) == resolved(
                object@,
                object@.len() as int,
            )[k],
{
    let mut r: Vec<(usize, usize)> = Vec::new();
    // Where each name seen so far sits in `r`: one pass and a map, rather
    // than a scan of `r` per pair, so a flat catalogue costs time in its
    // key count and not in its square.
    let mut seen: StringHashMap<usize> = StringHashMap::new();
    let mut n: usize = 0;
    while n < object.len()
        invariant
            0 <= n <= object@.len(),
            r@.len() == resolved(object@, n as int).len(),
            forall|k: int|
                0 <= k < r@.len() ==> (#[trigger] r@[k].0 as int, r@[k].1 as nat) == resolved(
                    object@,
                    n as int,
                )[k],
            forall|x: int|
                0 <= x < r@.len() ==> seen@.contains_key(#[trigger] object@[resolved(object@, n as int)[x].0].0@)
                    && seen@[object@[resolved(object@, n as int)[x].0].0@] == x,
            forall|name: Seq<char>|
                #[trigger] seen@.contains_key(name) ==> exists|x: int|
                    0 <= x < r@.len() && object@[resolved(object@, n as int)[x].0].0@ == name,
        decreases object@.len() - n,
    {
        proof {
            lemma_resolved(object@, n as int);
        }
        let ghost before = resolved(object@, n as int);
        let name = object[n].0.as_str();
        let found = match seen.get(name) {
            Some(k) => Some(*k),
            None => None,
        };
        let k = match found {
            Some(k) => k,
            None => r.len(),
        };
        proof {
            match found {
                Some(k) => {
                    let x = choose|x: int| 0 <= x < r@.len() && object@[before[x].0].0@ == name@;
                    assert(seen@[object@[before[x].0].0@] == x);
                    assert(k as int == x);
                    let p = position(object@, before, name@);
                    assert(0 <= p < before.len() && object@[before[p].0].0@ == name@);
                    if p != x {
                        if p < x {
                            assert(object@[before[p].0].0@ != object@[before[x].0].0@);
                        } else {
                            assert(object@[before[x].0].0@ != object@[before[p].0].0@);
                        }
                    }
                },
                None => {
                    assert forall|x: int| 0 <= x < before.len() implies object@[before[x].0].0@ != name@ by {
                        assert(seen@.contains_key(object@[before[x].0].0@));
                    }
                },
            }
            assert(k as int == position(object@, before, name@));
        }
        if k < r.len() {
            let entry = r[k];
            assert((r@[k as int].0 as int, r@[k as int].1 as nat) == before[k as int]);
            let count = entry.1;
            r.set(k, (n, count + 1));
        } else {
            seen.insert(crate::text::owned(name), r.len());
            r.push((n, 1));
        }
        proof {
            let after = resolved(object@, n + 1);
            assert(after == if k < before.len() {
                before.update(k as int, (n as int, before[k as int].1 + 1))
            } else {
                before.push((n as int, 1nat))
            });
            assert forall|x: int| 0 <= x < r@.len() implies seen@.contains_key(#[trigger] object@[after[x].0].0@)
                && seen@[object@[after[x].0].0@] == x by {
                if x < before.len() {
                    if x != k {
                        assert(after[x] == before[x]);
                    } else {
                        assert(object@[after[x].0].0@ == name@);
                    }
                } else {
                    assert(after[x].0 == n);
                }
            }
            assert forall|s: Seq<char>| #[trigger] seen@.contains_key(s) implies exists|x: int|
                0 <= x < r@.len() && object@[after[x].0].0@ == s by {
                if s == name@ {
                    if k < before.len() {
                        assert(object@[after[k as int].0].0@ == name@);
                    } else {
                        assert(object@[after[before.len() as int].0].0@ == name@);
                    }
                } else {
                    let x = choose|x: int| 0 <= x < before.len() && object@[before[x].0].0@ == s;
                    if x == k {
                        assert(object@[before[x].0].0@ == name@);
                    }
                    assert(after[x] == before[x]);
                }
            }
        }
        n += 1;
    }
    r
}

/// Every path under `prefix` in `object`, objects on the way down
/// included, and every name the object writes more than once.
pub fn walk(prefix: &str, object: &Vec<(String, Node)>, parsed: &mut Parsed)
    ensures
        final(parsed)@ == spec_walk(prefix@, object@, old(parsed)@),
    decreases object@,
{
    let resolution = resolve(object);
    let ghost res = resolved(object@, object@.len() as int);
    proof {
        lemma_resolved(object@, object@.len() as int);
    }

    let mut i: usize = 0;
    while i < resolution.len()
        invariant
            0 <= i <= resolution@.len(),
            resolution@.len() == res.len(),
            forall|k: int| 0 <= k < resolution@.len() ==> (#[trigger] resolution@[k].0 as int, resolution@[k].1 as nat) == res[k],
            well_resolved(object@, res, object@.len() as int),
            parsed@.entries == old(parsed)@.entries,
            parsed@.duplicates == old(parsed)@.duplicates + duplicates_of(prefix@, object@, res.take(i as int)),
        decreases resolution@.len() - i,
    {
        let (at, count) = resolution[i];
        assert((resolution@[i as int].0 as int, resolution@[i as int].1 as nat) == res[i as int]);
        let ghost before = parsed@;
        proof {
            assert(res.take(i + 1).drop_last() =~= res.take(i as int));
            assert(res.take(i + 1).last() == res[i as int]);
        }
        if count >= 2 {
            let key = path(prefix, object[at].0.as_str());
            parsed.duplicates.push(Duplicate { key, occurrences: count });
            proof {
                assert(parsed@.duplicates =~= before.duplicates.push((spec_path(prefix@, object@[at as int].0@), count as nat)));
                assert(duplicates_of(prefix@, object@, res.take(i + 1)) == duplicates_of(prefix@, object@, res.take(i as int)).push((spec_path(prefix@, object@[at as int].0@), count as nat)));
            }
        } else {
            proof {
                assert(parsed@.duplicates =~= before.duplicates);
                assert(duplicates_of(prefix@, object@, res.take(i + 1)) == duplicates_of(prefix@, object@, res.take(i as int)));
            }
        }
        proof {
            assert(parsed@.entries =~= old(parsed)@.entries);
            assert(parsed@.duplicates =~= old(parsed)@.duplicates + duplicates_of(prefix@, object@, res.take(i + 1)));
        }
        i += 1;
    }
    proof {
        assert(res.take(res.len() as int) =~= res);
    }

    let mut i: usize = 0;
    while i < resolution.len()
        invariant
            0 <= i <= resolution@.len(),
            resolution@.len() == res.len(),
            forall|k: int| 0 <= k < resolution@.len() ==> (#[trigger] resolution@[k].0 as int, resolution@[k].1 as nat) == res[k],
            well_resolved(object@, res, object@.len() as int),
            res == resolved(object@, object@.len() as int),
            spec_walk(prefix@, object@, old(parsed)@) == spec_walk_from(prefix@, object@, res, i as int, parsed@),
        decreases resolution@.len() - i,
    {
        let at = resolution[i].0;
        assert(at as int == res[i as int].0);
        let ghost before = parsed@;
        let key = path(prefix, object[at].0.as_str());
        match &object[at].1 {
            Node::Text(text) => {
                parsed.entries.push(Entry { key, shape: Shape::Text, text: Some(text.clone()) });
            },
            Node::Other => {
                parsed.entries.push(Entry { key, shape: Shape::Other, text: None });
            },
            Node::Object(children) => {
                let below = key.clone();
                parsed.entries.push(Entry { key, shape: Shape::Object, text: None });
                proof {
                    let k = spec_path(prefix@, object@[at as int].0@);
                    let opened = Flat {
                        entries: before.entries.push(EntryModel { key: k, shape: Shape::Object, text: None }),
                        duplicates: before.duplicates,
                    };
                    assert(parsed@.entries =~= opened.entries);
                    assert(parsed@.duplicates =~= opened.duplicates);
                    assert(parsed@ == opened);
                }
                assert(decreases_to!(object@ => children@)) by {
                    assert(decreases_to!(object@ => object@[at as int]));
                }
                walk(below.as_str(), children, parsed);
            },
        }
        proof {
            let k = spec_path(prefix@, object@[at as int].0@);
            match object@[at as int].1 {
                Node::Text(t) => {
                    assert(parsed@.entries =~= before.entries.push(EntryModel { key: k, shape: Shape::Text, text: Some(t@) }));
                    assert(parsed@.duplicates =~= before.duplicates);
                },
                Node::Other => {
                    assert(parsed@.entries =~= before.entries.push(EntryModel { key: k, shape: Shape::Other, text: None }));
                    assert(parsed@.duplicates =~= before.duplicates);
                },
                Node::Object(c) => {},
            }
            assert(spec_walk_from(prefix@, object@, res, i as int, before) == spec_walk_from(prefix@, object@, res, i + 1, parsed@));
        }
        i += 1;
    }
}

/// Parse one catalogue from its document tree.
///
pub open spec fn not_an_object() -> Seq<char> {
    "a catalogue must be a JSON object"@
}

/// A document's text without the byte order mark some editors write at
/// its start, which is not part of the document.
pub fn without_byte_order_mark(content: &str) -> (r: &str)
    ensures
        utf8(r@) == if utf8(content@).len() >= 3 && utf8(content@).subrange(0, 3) == seq![0xEFu8, 0xBBu8, 0xBFu8] {
            utf8(content@).subrange(3, utf8(content@).len() as int)
        } else {
            utf8(content@)
        },
{
    let bytes = content.as_bytes();
    if bytes.len() >= 3 && bytes[0] == 0xEF && bytes[1] == 0xBB && bytes[2] == 0xBF {
        proof {
            vstd::utf8::encode_utf8_valid_utf8(content@);
            assert(bytes@.subrange(0, 3) =~= seq![0xEFu8, 0xBBu8, 0xBFu8]);
            if bytes@.len() > 3 {
                crate::text::lemma_after_mark(bytes@);
            }
        }
        return crate::text::substring(content, 3, bytes.len());
    }
    proof {
        if bytes@.len() >= 3 && bytes@.subrange(0, 3) == seq![0xEFu8, 0xBBu8, 0xBFu8] {
            assert(bytes@.subrange(0, 3)[0] == bytes@[0]);
            assert(bytes@.subrange(0, 3)[1] == bytes@[1]);
            assert(bytes@.subrange(0, 3)[2] == bytes@[2]);
        }
    }
    content
}

/// A document that is not a JSON object is refused: a catalogue maps keys
/// to messages.
pub fn parse(root: &Node) -> (r: Result<Parsed, String>)
    ensures
        r matches Ok(p) ==> spec_parse(*root) == Some(p@),
        r is Err <==> spec_parse(*root) is None,
        r matches Err(e) ==> e@ == not_an_object(),
{
    match root {
        Node::Object(entries) => {
            let mut parsed = Parsed { entries: Vec::new(), duplicates: Vec::new() };
            assert(parsed@.entries =~= seq![]);
            assert(parsed@.duplicates =~= seq![]);
            proof {
                reveal_strlit("");
                assert(""@ =~= Seq::<char>::empty());
            }
            walk("", entries, &mut parsed);
            Ok(parsed)
        },
        _ => Err(String::from_str("a catalogue must be a JSON object")),
    }
}

} // verus!

verus! {

// ---------------------------------------------------------------------
// Nested and flat are one catalogue
// ---------------------------------------------------------------------

/// `flat` is `children` with every name written out under `name`: the
/// same values, in the same order, each named `name.child`.
pub open spec fn spelled_out(name: Seq<char>, children: Seq<(String, Node)>, flat: Seq<(String, Node)>) -> bool {
    &&& flat.len() == children.len()
    &&& forall|i: int|
        0 <= i < flat.len() ==> (#[trigger] flat[i]).0@ == name + seq!['.'] + children[i].0@ && flat[i].1
            == children[i].1
}

proof fn lemma_prefixed_names(name: Seq<char>, x: Seq<char>, y: Seq<char>)
    ensures
        (name + seq!['.'] + x == name + seq!['.'] + y) == (x == y),
{
    let n: int = name.len() as int + 1;
    let a = name + seq!['.'] + x;
    let b = name + seq!['.'] + y;
    if a == b {
        assert(x =~= a.subrange(n, a.len() as int));
        assert(y =~= b.subrange(n, b.len() as int));
    }
}

proof fn lemma_resolved_spelled_out(name: Seq<char>, children: Seq<(String, Node)>, flat: Seq<(String, Node)>, m: int)
    requires
        spelled_out(name, children, flat),
        0 <= m <= children.len(),
    ensures
        resolved(children, m) == resolved(flat, m),
    decreases m,
{
    if m > 0 {
        lemma_resolved_spelled_out(name, children, flat, m - 1);
        lemma_resolved(children, m - 1);
        let before = resolved(children, m - 1);
        let x = children[m - 1].0@;
        let y = flat[m - 1].0@;
        assert forall|k: int| 0 <= k < before.len() implies (children[before[k].0].0@ == x) == (
        flat[before[k].0].0@ == y) by {
            let j = before[k].0;
            assert(flat[j].0@ == name + seq!['.'] + children[j].0@);
            lemma_prefixed_names(name, children[j].0@, x);
        }
        let k1 = position(children, before, x);
        let k2 = position(flat, before, y);
        if exists|k: int| 0 <= k < before.len() && children[before[k].0].0@ == x {
            assert(0 <= k1 < before.len() && children[before[k1].0].0@ == x);
            assert(flat[before[k1].0].0@ == y);
            assert(0 <= k2 < before.len() && flat[before[k2].0].0@ == y);
            assert(children[before[k2].0].0@ == x);
            if k1 != k2 {
                if k1 < k2 {
                    assert(children[before[k1].0].0@ != children[before[k2].0].0@);
                } else {
                    assert(children[before[k2].0].0@ != children[before[k1].0].0@);
                }
            }
        } else {
            assert(!exists|k: int| 0 <= k < before.len() && flat[before[k].0].0@ == y);
        }
        assert(k1 == k2);
    }
}

proof fn lemma_duplicates_spelled_out(
    name: Seq<char>,
    children: Seq<(String, Node)>,
    flat: Seq<(String, Node)>,
    resolution: Seq<(int, nat)>,
)
    requires
        name.len() > 0,
        spelled_out(name, children, flat),
        forall|k: int| 0 <= k < resolution.len() ==> 0 <= #[trigger] resolution[k].0 < children.len(),
    ensures
        duplicates_of(name, children, resolution) == duplicates_of(seq![], flat, resolution),
    decreases resolution.len(),
{
    if resolution.len() > 0 {
        lemma_duplicates_spelled_out(name, children, flat, resolution.drop_last());
        let j = resolution.last().0;
        assert(resolution.last() == resolution[resolution.len() - 1]);
        assert(flat[j].0@ == name + seq!['.'] + children[j].0@);
    }
}

proof fn lemma_walk_spelled_out(
    name: Seq<char>,
    children: Seq<(String, Node)>,
    flat: Seq<(String, Node)>,
    resolution: Seq<(int, nat)>,
    i: int,
    start: Flat,
)
    requires
        name.len() > 0,
        spelled_out(name, children, flat),
    ensures
        spec_walk_from(name, children, resolution, i, start) == spec_walk_from(seq![], flat, resolution, i, start),
    decreases resolution.len() - i,
{
    if 0 <= i < resolution.len() {
        let at = resolution[i].0;
        if 0 <= at < children.len() {
            assert(flat[at].0@ == name + seq!['.'] + children[at].0@);
            assert(spec_path(name, children[at].0@) == spec_path(seq![], flat[at].0@));
            let key = spec_path(name, children[at].0@);
            let next = match children[at].1 {
                Node::Text(text) => Flat {
                    entries: start.entries.push(EntryModel { key, shape: Shape::Text, text: Some(text@) }),
                    duplicates: start.duplicates,
                },
                Node::Other => Flat {
                    entries: start.entries.push(EntryModel { key, shape: Shape::Other, text: None }),
                    duplicates: start.duplicates,
                },
                Node::Object(grand) => spec_walk(
                    key,
                    grand@,
                    Flat {
                        entries: start.entries.push(EntryModel { key, shape: Shape::Object, text: None }),
                        duplicates: start.duplicates,
                    },
                ),
            };
            lemma_walk_spelled_out(name, children, flat, resolution, i + 1, next);
        }
    }
}

/// Nested and flat are one catalogue: reading `{"a": {...}}` gives the
/// entry for `a` itself, then exactly what reading the same object with
/// every name written out as `a.<name>` gives — the same paths, the same
/// values, the same duplicates, in the same order. A project that moved
/// between the two shapes still compares against its own history.
pub proof fn law_nested_and_flat_are_one_catalogue(
    name: String,
    children: Vec<(String, Node)>,
    flat: Seq<(String, Node)>,
    start: Flat,
)
    requires
        name@.len() > 0,
        spelled_out(name@, children@, flat),
    ensures
        spec_walk(seq![], seq![(name, Node::Object(children))], start) == spec_walk(
            seq![],
            flat,
            Flat {
                entries: start.entries.push(EntryModel { key: name@, shape: Shape::Object, text: None }),
                duplicates: start.duplicates,
            },
        ),
{
    let nested = seq![(name, Node::Object(children))];
    assert(resolved(nested, 0) == Seq::<(int, nat)>::empty());
    assert(position(nested, seq![], name@) == 0);
    assert(resolved(nested, 1) =~= seq![(0int, 1nat)]);
    let r0 = resolved(nested, 1);
    assert(duplicates_of(seq![], nested, r0) =~= Seq::<(Seq<char>, nat)>::empty()) by {
        assert(r0.drop_last() =~= Seq::<(int, nat)>::empty());
        assert(duplicates_of(seq![], nested, r0.drop_last()) =~= Seq::<(Seq<char>, nat)>::empty());
        assert(r0.last().1 == 1);
    }
    assert(start.duplicates + duplicates_of(seq![], nested, r0) =~= start.duplicates);
    assert(spec_path(seq![], name@) == name@);
    let opened = Flat {
        entries: start.entries.push(EntryModel { key: name@, shape: Shape::Object, text: None }),
        duplicates: start.duplicates,
    };
    let n = children@.len() as int;
    lemma_resolved_spelled_out(name@, children@, flat, n);
    lemma_resolved(children@, n);
    let r = resolved(children@, n);
    lemma_duplicates_spelled_out(name@, children@, flat, r);
    let with = Flat { entries: opened.entries, duplicates: opened.duplicates + duplicates_of(name@, children@, r) };
    lemma_walk_spelled_out(name@, children@, flat, r, 0, with);
    assert(spec_walk(name@, children@, opened) == spec_walk(seq![], flat, opened));
    let with0 = Flat { entries: start.entries, duplicates: start.duplicates + duplicates_of(seq![], nested, r0) };
    assert(with0.duplicates == start.duplicates);
    assert(spec_walk(seq![], nested, start) == spec_walk_from(seq![], nested, r0, 0, with0));
    assert(r0[0].0 == 0);
    assert(nested[0].1 == Node::Object(children));
    let opened0 = Flat {
        entries: with0.entries.push(EntryModel { key: name@, shape: Shape::Object, text: None }),
        duplicates: with0.duplicates,
    };
    assert(opened0 == opened);
    assert(spec_walk_from(seq![], nested, r0, 0, with0) == spec_walk_from(
        seq![],
        nested,
        r0,
        1,
        spec_walk(name@, children@, opened0),
    ));
}

} // verus!
