//! References with the key paths that lead to them, and the objects that
//! refer to a given one.
use vstd::prelude::*;
use crate::model::{objects_sorted, ObjRef, PdfDoc, PdfValue};
use crate::stream::{lossy_string, utf8_lossy};
use crate::textbuf::{dec, push_dec, push_str};
use crate::object::{object_type_label, type_label};

verus! {

/// The references in a nested value with their paths below `path`: an
/// array item adds `[i]`, a dictionary value adds `/Key`; a stream nested
/// in a value is not entered.
pub open spec fn paths_in(v: PdfValue, path: Seq<char>) -> Seq<(Seq<char>, ObjRef)>
    decreases v,
{
    match v {
        PdfValue::Reference(r) => seq![(path, r)],
        PdfValue::Array(items) => item_paths(items@, path, 0),
        PdfValue::Dictionary(es) => entry_paths(es@, path),
        _ => Seq::empty(),
    }
}

/// The paths in array items, the first of which has index `from`.
pub open spec fn item_paths(items: Seq<PdfValue>, path: Seq<char>, from: nat) -> Seq<(Seq<char>, ObjRef)>
    decreases items,
{
    if items.len() == 0 {
        Seq::empty()
    } else {
        paths_in(items[0], path + "["@ + dec(from) + "]"@) + item_paths(
            items.subrange(1, items.len() as int),
            path,
            from + 1,
        )
    }
}

/// The paths in dictionary values, in entry order.
pub open spec fn entry_paths(es: Seq<(Vec<u8>, PdfValue)>, path: Seq<char>) -> Seq<(Seq<char>, ObjRef)>
    decreases es,
{
    if es.len() == 0 {
        Seq::empty()
    } else {
        paths_in(es[0].1, path + "/"@ + utf8_lossy(es[0].0@)) + entry_paths(es.subrange(1, es.len() as int), path)
    }
}

/// The references of an object with their paths: a dictionary's or a
/// stream's entries, or an array's items.
pub open spec fn object_paths(v: PdfValue) -> Seq<(Seq<char>, ObjRef)> {
    match v {
        PdfValue::Dictionary(es) => entry_paths(es@, Seq::empty()),
        PdfValue::Stream { dict, content } => entry_paths(dict@, Seq::empty()),
        PdfValue::Array(items) => item_paths(items@, Seq::empty(), 0),
        _ => Seq::empty(),
    }
}

pub open spec fn path_views(s: Seq<(String, ObjRef)>) -> Seq<(Seq<char>, ObjRef)> {
    s.map_values(|p: (String, ObjRef)| (p.0@, p.1))
}

fn push_path(out: &mut Vec<(String, ObjRef)>, p: String, r: ObjRef)
    ensures
        path_views(final(out)@) == path_views(old(out)@).push((p@, r)),
{
    let ghost pv = p@;
    out.push((p, r));
    assert(path_views(out@) =~= path_views(old(out)@).push((pv, r)));
}

fn item_path(path: &String, i: usize) -> (r: String)
    ensures
        r@ == path@ + "["@ + dec(i as nat) + "]"@,
{
    let mut s = path.clone();
    push_str(&mut s, "[");
    push_dec(&mut s, i as u64);
    push_str(&mut s, "]");
    s
}

fn key_path(path: &String, k: &Vec<u8>) -> (r: String)
    ensures
        r@ == path@ + "/"@ + utf8_lossy(k@),
{
    let mut s = path.clone();
    push_str(&mut s, "/");
    let t = lossy_string(k.as_slice());
    push_str(&mut s, t.as_str());
    s
}

/// Appends the references in a nested value with their paths.
fn collect_paths(v: &PdfValue, path: &String, out: &mut Vec<(String, ObjRef)>)
    ensures
        path_views(final(out)@) == path_views(old(out)@) + paths_in(*v, path@),
    decreases v,
{
    match v {
        PdfValue::Reference(r) => {
            push_path(out, path.clone(), *r);
        },
        PdfValue::Array(items) => {
            collect_item_paths(items, path, out);
        },
        PdfValue::Dictionary(es) => {
            collect_entry_paths(es, path, out);
        },
        _ => {
            assert(path_views(out@) =~= path_views(old(out)@) + paths_in(*v, path@));
        },
    }
}

fn collect_item_paths(items: &Vec<PdfValue>, path: &String, out: &mut Vec<(String, ObjRef)>)
    ensures
        path_views(final(out)@) == path_views(old(out)@) + item_paths(items@, path@, 0),
    decreases items,
{
    let ghost start = path_views(out@);
    let mut i: usize = 0;
    assert(items@.subrange(0, items@.len() as int) =~= items@);
    while i < items.len()
        invariant
            i <= items@.len(),
            start + item_paths(items@, path@, 0) == path_views(out@) + item_paths(
                items@.subrange(i as int, items@.len() as int),
                path@,
                i as nat,
            ),
        decreases items.len() - i,
    {
        let ghost rest = items@.subrange(i as int, items@.len() as int);
        assert(rest[0] == items@[i as int]);
        assert(rest.subrange(1, rest.len() as int) =~= items@.subrange(i + 1, items@.len() as int));
        let ghost before = path_views(out@);
        let p = item_path(path, i);
        proof {
            assert(decreases_to!(*items => items@));
            assert(decreases_to!(items@ => items@[i as int]));
        }
        collect_paths(&items[i], &p, out);
        assert(before + item_paths(rest, path@, i as nat) =~= path_views(out@) + item_paths(
            items@.subrange(i + 1, items@.len() as int),
            path@,
            (i + 1) as nat,
        ));
        i = i + 1;
    }
    assert(path_views(out@) + item_paths(items@.subrange(i as int, items@.len() as int), path@, i as nat)
        =~= path_views(out@));
}

fn collect_entry_paths(es: &Vec<(Vec<u8>, PdfValue)>, path: &String, out: &mut Vec<(String, ObjRef)>)
    ensures
        path_views(final(out)@) == path_views(old(out)@) + entry_paths(es@, path@),
    decreases es,
{
    let ghost start = path_views(out@);
    let mut i: usize = 0;
    assert(es@.subrange(0, es@.len() as int) =~= es@);
    while i < es.len()
        invariant
            i <= es@.len(),
            start + entry_paths(es@, path@) == path_views(out@) + entry_paths(
                es@.subrange(i as int, es@.len() as int),
                path@,
            ),
        decreases es.len() - i,
    {
        let ghost rest = es@.subrange(i as int, es@.len() as int);
        assert(rest[0] == es@[i as int]);
        assert(rest.subrange(1, rest.len() as int) =~= es@.subrange(i + 1, es@.len() as int));
        let ghost before = path_views(out@);
        let p = key_path(path, &es[i].0);
        proof {
            assert(decreases_to!(*es => es@[i as int].1));
        }
        collect_paths(&es[i].1, &p, out);
        assert(before + entry_paths(rest, path@) =~= path_views(out@) + entry_paths(
            es@.subrange(i + 1, es@.len() as int),
            path@,
        ));
        i = i + 1;
    }
    assert(path_views(out@) + entry_paths(es@.subrange(i as int, es@.len() as int), path@) =~= path_views(out@));
}

/// The references in a dictionary's values with their paths (`/Key`,
/// `/Key[0]`, `/Key/Sub`, ...), in entry order.
pub fn collect_refs_from_dict(es: &Vec<(Vec<u8>, PdfValue)>) -> (r: Vec<(String, ObjRef)>)
    ensures
        path_views(r@) == entry_paths(es@, Seq::empty()),
{
    let mut out: Vec<(String, ObjRef)> = Vec::new();
    assert(path_views(out@) =~= Seq::<(Seq<char>, ObjRef)>::empty());
    let root = String::new();
    collect_entry_paths(es, &root, &mut out);
    assert(path_views(out@) =~= entry_paths(es@, Seq::empty()));
    out
}

/// The references of an object with their paths: a dictionary's or a
/// stream dictionary's values, or an array's items (`[0]`, `[1]`, ...);
/// none for other values.
pub fn collect_refs_with_paths(v: &PdfValue) -> (r: Vec<(String, ObjRef)>)
    ensures
        path_views(r@) == object_paths(*v),
{
    let mut out: Vec<(String, ObjRef)> = Vec::new();
    assert(path_views(out@) =~= Seq::<(Seq<char>, ObjRef)>::empty());
    let root = String::new();
    match v {
        PdfValue::Dictionary(es) => collect_entry_paths(es, &root, &mut out),
        PdfValue::Stream { dict, content } => collect_entry_paths(dict, &root, &mut out),
        PdfValue::Array(items) => collect_item_paths(items, &root, &mut out),
        _ => {},
    }
    assert(path_views(out@) =~= object_paths(*v));
    out
}

/// The paths below `path` at which a value refers to `target`; a stream's
/// dictionary is entered at any depth.
pub open spec fn target_paths(v: PdfValue, target: ObjRef, path: Seq<char>) -> Seq<Seq<char>>
    decreases v,
{
    match v {
        PdfValue::Reference(r) => if r == target {
            seq![path]
        } else {
            Seq::empty()
        },
        PdfValue::Array(items) => target_item_paths(items@, target, path, 0),
        PdfValue::Dictionary(es) => target_entry_paths(es@, target, path),
        PdfValue::Stream { dict, content } => target_entry_paths(dict@, target, path),
        _ => Seq::empty(),
    }
}

pub open spec fn target_item_paths(items: Seq<PdfValue>, target: ObjRef, path: Seq<char>, from: nat) -> Seq<
    Seq<char>,
>
    decreases items,
{
    if items.len() == 0 {
        Seq::empty()
    } else {
        target_paths(items[0], target, path + "["@ + dec(from) + "]"@) + target_item_paths(
            items.subrange(1, items.len() as int),
            target,
            path,
            from + 1,
        )
    }
}

pub open spec fn target_entry_paths(es: Seq<(Vec<u8>, PdfValue)>, target: ObjRef, path: Seq<char>) -> Seq<
    Seq<char>,
>
    decreases es,
{
    if es.len() == 0 {
        Seq::empty()
    } else {
        target_paths(es[0].1, target, path + "/"@ + utf8_lossy(es[0].0@)) + target_entry_paths(
            es.subrange(1, es.len() as int),
            target,
            path,
        )
    }
}

pub open spec fn string_views(s: Seq<String>) -> Seq<Seq<char>> {
    s.map_values(|p: String| p@)
}

fn push_string(out: &mut Vec<String>, p: String)
    ensures
        string_views(final(out)@) == string_views(old(out)@).push(p@),
{
    let ghost pv = p@;
    out.push(p);
    assert(string_views(out@) =~= string_views(old(out)@).push(pv));
}

/// Appends the paths below `path` at which `v` refers to `target`.
pub fn collect_references_in_object_into(v: &PdfValue, target: ObjRef, path: &String, found: &mut Vec<String>)
    ensures
        string_views(final(found)@) == string_views(old(found)@) + target_paths(*v, target, path@),
    decreases v,
{
    match v {
        PdfValue::Reference(r) => {
            if *r == target {
                push_string(found, path.clone());
            } else {
                assert(string_views(found@) =~= string_views(old(found)@) + target_paths(*v, target, path@));
            }
        },
        PdfValue::Array(items) => {
            target_items(items, target, path, found);
        },
        PdfValue::Dictionary(es) => {
            target_entries(es, target, path, found);
        },
        PdfValue::Stream { dict, content } => {
            target_entries(dict, target, path, found);
        },
        _ => {
            assert(string_views(found@) =~= string_views(old(found)@) + target_paths(*v, target, path@));
        },
    }
}

fn target_items(items: &Vec<PdfValue>, target: ObjRef, path: &String, found: &mut Vec<String>)
    ensures
        string_views(final(found)@) == string_views(old(found)@) + target_item_paths(items@, target, path@, 0),
    decreases items,
{
    let ghost start = string_views(found@);
    let mut i: usize = 0;
    assert(items@.subrange(0, items@.len() as int) =~= items@);
    while i < items.len()
        invariant
            i <= items@.len(),
            start + target_item_paths(items@, target, path@, 0) == string_views(found@) + target_item_paths(
                items@.subrange(i as int, items@.len() as int),
                target,
                path@,
                i as nat,
            ),
        decreases items.len() - i,
    {
        let ghost rest = items@.subrange(i as int, items@.len() as int);
        assert(rest[0] == items@[i as int]);
        assert(rest.subrange(1, rest.len() as int) =~= items@.subrange(i + 1, items@.len() as int));
        let ghost before = string_views(found@);
        let p = item_path(path, i);
        proof {
            assert(decreases_to!(*items => items@));
            assert(decreases_to!(items@ => items@[i as int]));
        }
        collect_references_in_object_into(&items[i], target, &p, found);
        assert(before + target_item_paths(rest, target, path@, i as nat) =~= string_views(found@)
            + target_item_paths(items@.subrange(i + 1, items@.len() as int), target, path@, (i + 1) as nat));
        i = i + 1;
    }
    assert(string_views(found@) + target_item_paths(
        items@.subrange(i as int, items@.len() as int),
        target,
        path@,
        i as nat,
    ) =~= string_views(found@));
}

fn target_entries(es: &Vec<(Vec<u8>, PdfValue)>, target: ObjRef, path: &String, found: &mut Vec<String>)
    ensures
        string_views(final(found)@) == string_views(old(found)@) + target_entry_paths(es@, target, path@),
    decreases es,
{
    let ghost start = string_views(found@);
    let mut i: usize = 0;
    assert(es@.subrange(0, es@.len() as int) =~= es@);
    while i < es.len()
        invariant
            i <= es@.len(),
            start + target_entry_paths(es@, target, path@) == string_views(found@) + target_entry_paths(
                es@.subrange(i as int, es@.len() as int),
                target,
                path@,
            ),
        decreases es.len() - i,
    {
        let ghost rest = es@.subrange(i as int, es@.len() as int);
        assert(rest[0] == es@[i as int]);
        assert(rest.subrange(1, rest.len() as int) =~= es@.subrange(i + 1, es@.len() as int));
        let ghost before = string_views(found@);
        let p = key_path(path, &es[i].0);
        proof {
            assert(decreases_to!(*es => es@[i as int].1));
        }
        collect_references_in_object_into(&es[i].1, target, &p, found);
        assert(before + target_entry_paths(rest, target, path@) =~= string_views(found@) + target_entry_paths(
            es@.subrange(i + 1, es@.len() as int),
            target,
            path@,
        ));
        i = i + 1;
    }
    assert(string_views(found@) + target_entry_paths(es@.subrange(i as int, es@.len() as int), target, path@)
        =~= string_views(found@));
}

/// The paths below `path` at which `v` refers to `target`, in order.
pub fn collect_references_in_object(v: &PdfValue, target: ObjRef, path: &str) -> (r: Vec<String>)
    ensures
        string_views(r@) == target_paths(*v, target, path@),
{
    let mut found: Vec<String> = Vec::new();
    assert(string_views(found@) =~= Seq::<Seq<char>>::empty());
    let mut p = String::new();
    push_str(&mut p, path);
    collect_references_in_object_into(v, target, &p, &mut found);
    assert(string_views(found@) =~= target_paths(*v, target, path@));
    found
}

/// The name of a value's kind.
pub open spec fn kind_name(v: PdfValue) -> Seq<char> {
    match v {
        PdfValue::Null => "Null"@,
        PdfValue::Boolean(_) => "Boolean"@,
        PdfValue::Integer(_) => "Integer"@,
        PdfValue::Real(_) => "Real"@,
        PdfValue::Name(_) => "Name"@,
        PdfValue::Str(_) => "String"@,
        PdfValue::Array(_) => "Array"@,
        PdfValue::Dictionary(_) => "Dictionary"@,
        PdfValue::Stream { .. } => "Stream"@,
        PdfValue::Reference(_) => "Reference"@,
    }
}

/// The name of a value's kind, as the object model names its variants.
pub fn enum_variant(v: &PdfValue) -> (r: &'static str)
    ensures
        r@ == kind_name(*v),
{
    match v {
        PdfValue::Null => "Null",
        PdfValue::Boolean(_) => "Boolean",
        PdfValue::Integer(_) => "Integer",
        PdfValue::Real(_) => "Real",
        PdfValue::Name(_) => "Name",
        PdfValue::Str(_) => "String",
        PdfValue::Array(_) => "Array",
        PdfValue::Dictionary(_) => "Dictionary",
        PdfValue::Stream { .. } => "Stream",
        PdfValue::Reference(_) => "Reference",
    }
}

/// An object that refers to the target, with the paths at which it does.
pub struct ReverseRef {
    pub obj_num: u32,
    pub generation: u16,
    pub kind: &'static str,
    pub type_label: String,
    pub paths: Vec<String>,
}

/// The objects among the first `n` that refer to `target`: id, kind,
/// `/Type` and paths.
pub open spec fn reverse_refs(objs: Seq<(ObjRef, PdfValue)>, target: ObjRef, n: int) -> Seq<
    (ObjRef, Seq<char>, Seq<char>, Seq<Seq<char>>),
>
    decreases n,
{
    if n <= 0 {
        Seq::empty()
    } else {
        let prev = reverse_refs(objs, target, n - 1);
        let ps = target_paths(objs[n - 1].1, target, Seq::empty());
        if ps.len() == 0 {
            prev
        } else {
            prev.push((objs[n - 1].0, kind_name(objs[n - 1].1), type_label(objs[n - 1].1), ps))
        }
    }
}

pub open spec fn reverse_views(s: Seq<ReverseRef>) -> Seq<(ObjRef, Seq<char>, Seq<char>, Seq<Seq<char>>)> {
    s.map_values(
        |r: ReverseRef|
            (ObjRef { num: r.obj_num, gen: r.generation }, r.kind@, r.type_label@, string_views(r.paths@)),
    )
}

/// Every object that refers to `target`, in id order, with its kind, its
/// `/Type` and the paths at which it does.
pub fn collect_reverse_refs(doc: &PdfDoc, target: ObjRef) -> (r: Vec<ReverseRef>)
    ensures
        reverse_views(r@) == reverse_refs(doc.objects@, target, doc.objects@.len() as int),
{
    let objs = &doc.objects;
    let mut out: Vec<ReverseRef> = Vec::new();
    let mut k: usize = 0;
    assert(reverse_views(out@) =~= reverse_refs(objs@, target, 0));
    while k < objs.len()
        invariant
            objs@ == doc.objects@,
            k <= objs@.len(),
            reverse_views(out@) == reverse_refs(objs@, target, k as int),
        decreases objs.len() - k,
    {
        let paths = collect_references_in_object(&objs[k].1, target, "");
        proof {
            reveal_strlit("");
        }
        assert(""@ =~= Seq::<char>::empty());
        if paths.len() > 0 {
            let ghost before = reverse_views(out@);
            let ghost pv = string_views(paths@);
            let item = ReverseRef {
                obj_num: objs[k].0.num,
                generation: objs[k].0.gen,
                kind: enum_variant(&objs[k].1),
                type_label: object_type_label(&objs[k].1),
                paths,
            };
            out.push(item);
            assert(reverse_views(out@) =~= before.push(
                (objs@[k as int].0, kind_name(objs@[k as int].1), type_label(objs@[k as int].1), pv),
            ));
        }
        k = k + 1;
    }
    out
}

} // verus!
