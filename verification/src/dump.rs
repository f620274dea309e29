//! Objects written out in full: a value with its nested arrays and
//! dictionaries, a stream's content, and the walk from one object through
//! the objects it references.
use vstd::prelude::*;
use crate::model::{bytes_eq, entry_get, find_entry, lookup, ref_lt, dict_filter_names, get_object, objects_sorted, pdf_stream_of, resolve_object, ObjRef, PdfDoc, PdfValue};
use crate::object::{failure_text, lookup_error, lookup_failure, content_view, parsed_views, print_content_data, summary_text, deref_summary};
use crate::stream::{cow_bytes, decode_stream, get_filter_names, run_filters, utf8_lossy, lossy_string};
use crate::textbuf::{dec, dec_int, push_dec, push_dec_i64, push_str, views};
use crate::tree::{id_text, indent};
use crate::types::{spec_pages, DumpConfig, PageSpec};
use crate::validate::{contains_ref, key};

verus! {

/// A stream's content after decoding: `decoded` when every filter ran,
/// `raw` when there is none or one failed (with its warning); for page
/// content, the operations `parsed` holds.
pub open spec fn stream_content_view(
    dict: Seq<(Vec<u8>, PdfValue)>,
    content: Seq<u8>,
    pad: Seq<char>,
    is_contents: bool,
    config: DumpConfig,
    parsed: Option<Result<Seq<Seq<char>>, Seq<char>>>,
) -> Seq<char> {
    let fs = dict_filter_names(dict);
    let d = run_filters(content, fs);
    let description = if d.1 is None && fs.len() > 0 {
        "decoded"@
    } else {
        "raw"@
    };
    content_view(
        d.0,
        description,
        pad,
        config.truncate,
        config.hex,
        d.1,
        if is_contents {
            parsed
        } else {
            None
        },
    )
}

/// What follows `>> stream`: the raw content when asked for it, else the
/// decoded content when decoding, else nothing.
pub open spec fn stream_tail(
    dict: Seq<(Vec<u8>, PdfValue)>,
    content: Seq<u8>,
    pad: Seq<char>,
    is_contents: bool,
    config: DumpConfig,
    parsed: Option<Result<Seq<Seq<char>>, Seq<char>>>,
) -> Seq<char> {
    if config.raw {
        content_view(content, "raw, undecoded"@, pad, config.truncate, config.hex, None, None)
    } else if config.decode {
        stream_content_view(dict, content, pad, is_contents, config, parsed)
    } else {
        Seq::empty()
    }
}

/// What follows a reference `n g R`: ` (visited)` for an id in `visited`,
/// else, when following references, ` => ` and a summary of the object.
pub open spec fn ref_note(r: ObjRef, objs: Seq<(ObjRef, PdfValue)>, visited: Seq<ObjRef>, config: DumpConfig) -> Seq<char> {
    if visited.contains(r) {
        " (visited)"@
    } else if config.deref {
        match get_object(objs, r) {
            Some(i) => " => "@ + summary_text(objs[i].1),
            None => Seq::empty(),
        }
    } else {
        Seq::empty()
    }
}

/// Whether an entry under `k` holds page content.
pub open spec fn entry_flag(k: Seq<u8>, is_contents: bool, per_key: bool) -> bool {
    if per_key {
        k == key("Contents"@)
    } else {
        is_contents
    }
}

/// A value written out in full at indentation `pad`: scalars as in
/// `value_text`; an array's items and a dictionary's entries one per line,
/// indented one step more; a stream's dictionary, then its content (see
/// `stream_tail`); a reference with its note (see `ref_note`). Inside a
/// dictionary, the value under `/Contents` counts as page content; inside an
/// array or a stream's dictionary, values keep the flag they were given.
pub open spec fn object_text(
    v: PdfValue,
    pad: Seq<char>,
    is_contents: bool,
    objs: Seq<(ObjRef, PdfValue)>,
    visited: Seq<ObjRef>,
    config: DumpConfig,
    parsed: Option<Result<Seq<Seq<char>>, Seq<char>>>,
) -> Seq<char>
    decreases v,
{
    match v {
        PdfValue::Null => "null"@,
        PdfValue::Boolean(b) => if b {
            "true"@
        } else {
            "false"@
        },
        PdfValue::Integer(i) => dec_int(i as int),
        PdfValue::Real(r) => r@,
        PdfValue::Name(n) => "/"@ + utf8_lossy(n@),
        PdfValue::Str(s) => "("@ + utf8_lossy(s@) + ")"@,
        PdfValue::Array(items) => "[\n"@ + items_block(items@, pad, is_contents, objs, visited, config, parsed) + pad
            + "]"@,
        PdfValue::Stream { dict, content } => "<<\n"@ + entries_block(
            dict@,
            pad,
            is_contents,
            false,
            objs,
            visited,
            config,
            parsed,
        ) + pad + ">> stream"@ + stream_tail(dict@, content@, pad, is_contents, config, parsed),
        PdfValue::Dictionary(es) => "<<\n"@ + entries_block(es@, pad, is_contents, true, objs, visited, config, parsed)
            + pad + ">>"@,
        PdfValue::Reference(r) => dec(r.num as nat) + " "@ + dec(r.gen as nat) + " R"@ + ref_note(r, objs, visited, config),
    }
}

/// Array items, one per line, indented one step more than `pad`.
pub open spec fn items_block(
    items: Seq<PdfValue>,
    pad: Seq<char>,
    is_contents: bool,
    objs: Seq<(ObjRef, PdfValue)>,
    visited: Seq<ObjRef>,
    config: DumpConfig,
    parsed: Option<Result<Seq<Seq<char>>, Seq<char>>>,
) -> Seq<char>
    decreases items,
{
    if items.len() == 0 {
        Seq::empty()
    } else {
        pad + "  "@ + object_text(items[0], pad + "  "@, is_contents, objs, visited, config, parsed) + "\n"@ + items_block(
            items.subrange(1, items.len() as int),
            pad,
            is_contents,
            objs,
            visited,
            config,
            parsed,
        )
    }
}

/// Dictionary entries, one per line as `/Key value`, indented one step more
/// than `pad`.
pub open spec fn entries_block(
    es: Seq<(Vec<u8>, PdfValue)>,
    pad: Seq<char>,
    is_contents: bool,
    per_key: bool,
    objs: Seq<(ObjRef, PdfValue)>,
    visited: Seq<ObjRef>,
    config: DumpConfig,
    parsed: Option<Result<Seq<Seq<char>>, Seq<char>>>,
) -> Seq<char>
    decreases es,
{
    if es.len() == 0 {
        Seq::empty()
    } else {
        pad + "  /"@ + utf8_lossy(es[0].0@) + " "@ + object_text(
            es[0].1,
            pad + "  "@,
            entry_flag(es[0].0@, is_contents, per_key),
            objs,
            visited,
            config,
            parsed,
        ) + "\n"@ + entries_block(
            es.subrange(1, es.len() as int),
            pad,
            is_contents,
            per_key,
            objs,
            visited,
            config,
            parsed,
        )
    }
}

/// The references in a value, in order, each with whether it was reached
/// as page content (by the rule of `object_text`).
pub open spec fn flagged_refs(v: PdfValue, is_contents: bool) -> Seq<(bool, ObjRef)>
    decreases v,
{
    match v {
        PdfValue::Reference(r) => seq![(is_contents, r)],
        PdfValue::Array(items) => flagged_items(items@, is_contents),
        PdfValue::Dictionary(es) => flagged_entries(es@, is_contents, true),
        PdfValue::Stream { dict, content } => flagged_entries(dict@, is_contents, false),
        _ => Seq::empty(),
    }
}

pub open spec fn flagged_items(items: Seq<PdfValue>, is_contents: bool) -> Seq<(bool, ObjRef)>
    decreases items,
{
    if items.len() == 0 {
        Seq::empty()
    } else {
        flagged_refs(items[0], is_contents) + flagged_items(items.subrange(1, items.len() as int), is_contents)
    }
}

pub open spec fn flagged_entries(es: Seq<(Vec<u8>, PdfValue)>, is_contents: bool, per_key: bool) -> Seq<(bool, ObjRef)>
    decreases es,
{
    if es.len() == 0 {
        Seq::empty()
    } else {
        flagged_refs(es[0].1, entry_flag(es[0].0@, is_contents, per_key)) + flagged_entries(
            es.subrange(1, es.len() as int),
            is_contents,
            per_key,
        )
    }
}

/// A stream's content after decoding (see `stream_content_view`).
pub fn print_stream_content(
    dict: &Vec<(Vec<u8>, PdfValue)>,
    content: &Vec<u8>,
    indent_str: &str,
    config: &DumpConfig,
    is_contents: bool,
    parsed: Option<&Result<Vec<String>, String>>,
) -> (r: String)
    ensures
        r@ == stream_content_view(dict@, content@, indent_str@, is_contents, *config, parsed_views(parsed)),
{
    let st = pdf_stream_of(dict, content);
    let (decoded, warning) = decode_stream(&st);
    let filters = get_filter_names(&st);
    let description = if warning.is_none() && filters.len() > 0 {
        "decoded"
    } else {
        "raw"
    };
    proof {
        reveal_strlit("decoded");
        reveal_strlit("raw");
    }
    let which = if is_contents {
        parsed
    } else {
        None
    };
    match &warning {
        Some(w) => print_content_data(cow_bytes(&decoded), description, indent_str, config, Some(w.as_str()), which),
        None => print_content_data(cow_bytes(&decoded), description, indent_str, config, None, which),
    }
}

fn push_stream_tail(
    out: &mut String,
    dict: &Vec<(Vec<u8>, PdfValue)>,
    content: &Vec<u8>,
    pad: &String,
    is_contents: bool,
    config: &DumpConfig,
    parsed: Option<&Result<Vec<String>, String>>,
)
    ensures
        final(out)@ == old(out)@ + stream_tail(dict@, content@, pad@, is_contents, *config, parsed_views(parsed)),
{
    if config.raw {
        let t = print_content_data(content.as_slice(), "raw, undecoded", pad.as_str(), config, None, None);
        push_str(out, t.as_str());
    } else if config.decode {
        let t = print_stream_content(dict, content, pad.as_str(), config, is_contents, parsed);
        push_str(out, t.as_str());
    }
}

fn push_ref_note(out: &mut String, r: ObjRef, doc: &PdfDoc, visited: &Vec<ObjRef>, config: &DumpConfig)
    requires
        objects_sorted(doc.objects@),
    ensures
        final(out)@ == old(out)@ + ref_note(r, doc.objects@, visited@, *config),
{
    if contains_ref(visited, r) {
        push_str(out, " (visited)");
    } else if config.deref {
        match resolve_object(&doc.objects, r) {
            Some(i) => {
                push_str(out, " => ");
                let t = deref_summary(&doc.objects[i].1);
                push_str(out, t.as_str());
            },
            None => {},
        }
    }
}

fn push_value(
    out: &mut String,
    v: &PdfValue,
    pad: &String,
    is_contents: bool,
    doc: &PdfDoc,
    visited: &Vec<ObjRef>,
    config: &DumpConfig,
    parsed: Option<&Result<Vec<String>, String>>,
    refs: &mut Vec<(bool, ObjRef)>,
)
    requires
        objects_sorted(doc.objects@),
    ensures
        final(out)@ == old(out)@ + object_text(
            *v,
            pad@,
            is_contents,
            doc.objects@,
            visited@,
            *config,
            parsed_views(parsed),
        ),
        final(refs)@ == old(refs)@ + flagged_refs(*v, is_contents),
    decreases v,
{
    match v {
        PdfValue::Null => push_str(out, "null"),
        PdfValue::Boolean(b) => push_str(out, if *b { "true" } else { "false" }),
        PdfValue::Integer(i) => push_dec_i64(out, *i),
        PdfValue::Real(r) => push_str(out, r.as_str()),
        PdfValue::Name(n) => {
            push_str(out, "/");
            let t = lossy_string(n.as_slice());
            push_str(out, t.as_str());
        },
        PdfValue::Str(b) => {
            push_str(out, "(");
            let t = lossy_string(b.as_slice());
            push_str(out, t.as_str());
            push_str(out, ")");
        },
        PdfValue::Array(items) => {
            push_str(out, "[\n");
            push_items(out, items, pad, is_contents, doc, visited, config, parsed, refs);
            push_str(out, pad.as_str());
            push_str(out, "]");
        },
        PdfValue::Stream { dict, content } => {
            push_str(out, "<<\n");
            push_entries(out, dict, pad, is_contents, false, doc, visited, config, parsed, refs);
            push_str(out, pad.as_str());
            push_str(out, ">> stream");
            push_stream_tail(out, dict, content, pad, is_contents, config, parsed);
        },
        PdfValue::Dictionary(es) => {
            push_str(out, "<<\n");
            push_entries(out, es, pad, is_contents, true, doc, visited, config, parsed, refs);
            push_str(out, pad.as_str());
            push_str(out, ">>");
        },
        PdfValue::Reference(r) => {
            refs.push((is_contents, *r));
            push_dec(out, r.num as u64);
            push_str(out, " ");
            push_dec(out, r.gen as u64);
            push_str(out, " R");
            push_ref_note(out, *r, doc, visited, config);
        },
    }
}

fn push_items(
    out: &mut String,
    items: &Vec<PdfValue>,
    pad: &String,
    is_contents: bool,
    doc: &PdfDoc,
    visited: &Vec<ObjRef>,
    config: &DumpConfig,
    parsed: Option<&Result<Vec<String>, String>>,
    refs: &mut Vec<(bool, ObjRef)>,
)
    requires
        objects_sorted(doc.objects@),
    ensures
        final(out)@ == old(out)@ + items_block(
            items@,
            pad@,
            is_contents,
            doc.objects@,
            visited@,
            *config,
            parsed_views(parsed),
        ),
        final(refs)@ == old(refs)@ + flagged_items(items@, is_contents),
    decreases items,
{
    let ghost pv = parsed_views(parsed);
    let ghost o0 = out@;
    let ghost r0 = refs@;
    let mut child = String::new();
    push_str(&mut child, pad.as_str());
    push_str(&mut child, "  ");
    let mut i: usize = 0;
    assert(items@.subrange(0, items@.len() as int) =~= items@);
    while i < items.len()
        invariant
            objects_sorted(doc.objects@),
            i <= items@.len(),
            child@ == pad@ + "  "@,
            pv == parsed_views(parsed),
            out@ + items_block(
                items@.subrange(i as int, items@.len() as int),
                pad@,
                is_contents,
                doc.objects@,
                visited@,
                *config,
                pv,
            ) == o0 + items_block(items@, pad@, is_contents, doc.objects@, visited@, *config, pv),
            refs@ + flagged_items(items@.subrange(i as int, items@.len() as int), is_contents) == r0 + flagged_items(
                items@,
                is_contents,
            ),
        decreases items.len() - i,
    {
        let ghost rest = items@.subrange(i as int, items@.len() as int);
        assert(rest[0] == items@[i as int]);
        assert(rest.subrange(1, rest.len() as int) =~= items@.subrange(i + 1, items@.len() as int));
        proof {
            assert(decreases_to!(*items => items@));
            assert(decreases_to!(items@ => items@[i as int]));
        }
        let ghost ob = out@;
        let ghost rb = refs@;
        push_str(out, child.as_str());
        push_value(out, &items[i], &child, is_contents, doc, visited, config, parsed, refs);
        push_str(out, "\n");
        assert(out@ + items_block(
            items@.subrange(i + 1, items@.len() as int),
            pad@,
            is_contents,
            doc.objects@,
            visited@,
            *config,
            pv,
        ) =~= ob + items_block(rest, pad@, is_contents, doc.objects@, visited@, *config, pv));
        assert(refs@ + flagged_items(items@.subrange(i + 1, items@.len() as int), is_contents) =~= rb + flagged_items(
            rest,
            is_contents,
        ));
        i = i + 1;
    }
    assert(items@.subrange(i as int, items@.len() as int) =~= Seq::<PdfValue>::empty());
    assert(out@ =~= o0 + items_block(items@, pad@, is_contents, doc.objects@, visited@, *config, pv));
    assert(refs@ =~= r0 + flagged_items(items@, is_contents));
}

fn flag_of(k: &Vec<u8>, is_contents: bool, per_key: bool) -> (b: bool)
    ensures
        b == entry_flag(k@, is_contents, per_key),
{
    if per_key {
        bytes_eq(k.as_slice(), "Contents".as_bytes())
    } else {
        is_contents
    }
}

#[verifier::rlimit(40)]
fn push_entries(
    out: &mut String,
    es: &Vec<(Vec<u8>, PdfValue)>,
    pad: &String,
    is_contents: bool,
    per_key: bool,
    doc: &PdfDoc,
    visited: &Vec<ObjRef>,
    config: &DumpConfig,
    parsed: Option<&Result<Vec<String>, String>>,
    refs: &mut Vec<(bool, ObjRef)>,
)
    requires
        objects_sorted(doc.objects@),
    ensures
        final(out)@ == old(out)@ + entries_block(
            es@,
            pad@,
            is_contents,
            per_key,
            doc.objects@,
            visited@,
            *config,
            parsed_views(parsed),
        ),
        final(refs)@ == old(refs)@ + flagged_entries(es@, is_contents, per_key),
    decreases es,
{
    let ghost pv = parsed_views(parsed);
    let ghost o0 = out@;
    let ghost r0 = refs@;
    let mut child = String::new();
    push_str(&mut child, pad.as_str());
    push_str(&mut child, "  ");
    let mut i: usize = 0;
    assert(es@.subrange(0, es@.len() as int) =~= es@);
    while i < es.len()
        invariant
            objects_sorted(doc.objects@),
            i <= es@.len(),
            child@ == pad@ + "  "@,
            pv == parsed_views(parsed),
            out@ + entries_block(
                es@.subrange(i as int, es@.len() as int),
                pad@,
                is_contents,
                per_key,
                doc.objects@,
                visited@,
                *config,
                pv,
            ) == o0 + entries_block(es@, pad@, is_contents, per_key, doc.objects@, visited@, *config, pv),
            refs@ + flagged_entries(es@.subrange(i as int, es@.len() as int), is_contents, per_key) == r0
                + flagged_entries(es@, is_contents, per_key),
        decreases es.len() - i,
    {
        let ghost rest = es@.subrange(i as int, es@.len() as int);
        assert(rest[0] == es@[i as int]);
        assert(rest.subrange(1, rest.len() as int) =~= es@.subrange(i + 1, es@.len() as int));
        proof {
            assert(decreases_to!(*es => es@[i as int].1));
        }
        let ghost ob = out@;
        let ghost rb = refs@;
        let flag = flag_of(&es[i].0, is_contents, per_key);
        push_str(out, pad.as_str());
        push_str(out, "  /");
        let t = lossy_string(es[i].0.as_slice());
        push_str(out, t.as_str());
        push_str(out, " ");
        push_value(out, &es[i].1, &child, flag, doc, visited, config, parsed, refs);
        push_str(out, "\n");
        assert(out@ + entries_block(
            es@.subrange(i + 1, es@.len() as int),
            pad@,
            is_contents,
            per_key,
            doc.objects@,
            visited@,
            *config,
            pv,
        ) =~= ob + entries_block(rest, pad@, is_contents, per_key, doc.objects@, visited@, *config, pv));
        assert(refs@ + flagged_entries(es@.subrange(i + 1, es@.len() as int), is_contents, per_key) =~= rb
            + flagged_entries(rest, is_contents, per_key));
        i = i + 1;
    }
    assert(es@.subrange(i as int, es@.len() as int) =~= Seq::<(Vec<u8>, PdfValue)>::empty());
    assert(out@ =~= o0 + entries_block(es@, pad@, is_contents, per_key, doc.objects@, visited@, *config, pv));
    assert(refs@ =~= r0 + flagged_entries(es@, is_contents, per_key));
}

/// A value written out in full at indentation level `indent` (two spaces a
/// level; see `object_text`), with the references met appended to
/// `child_refs` in order, each with whether it was reached as page content.
/// `parsed` is the parse of the content of a page content stream met on
/// the way (a value read from a file holds at most one stream).
pub fn print_object(
    obj: &PdfValue,
    doc: &PdfDoc,
    visited: &Vec<ObjRef>,
    indent: usize,
    config: &DumpConfig,
    is_contents: bool,
    parsed: Option<&Result<Vec<String>, String>>,
    child_refs: &mut Vec<(bool, ObjRef)>,
) -> (r: String)
    requires
        objects_sorted(doc.objects@),
    ensures
        r@ == object_text(
            *obj,
            crate::tree::indent(indent as nat),
            is_contents,
            doc.objects@,
            visited@,
            *config,
            parsed_views(parsed),
        ),
        final(child_refs)@ == old(child_refs)@ + flagged_refs(*obj, is_contents),
{
    let mut pad = String::new();
    crate::tree::push_indent(&mut pad, indent);
    let mut out = String::new();
    push_value(&mut out, obj, &pad, is_contents, doc, visited, config, parsed, child_refs);
    out
}

// ── Following references from an object ─────────────────────────────

/// The order in which the references met are followed: those not reached
/// as page content first, then by number and generation.
pub open spec fn child_lt(a: (bool, ObjRef), b: (bool, ObjRef)) -> bool {
    (!a.0 && b.0) || (a.0 == b.0 && ref_lt(a.1, b.1))
}

/// `x` put into `s` before the first element it precedes, unless it is
/// already met before that.
pub open spec fn insert_sorted(s: Seq<(bool, ObjRef)>, x: (bool, ObjRef)) -> Seq<(bool, ObjRef)>
    decreases s.len(),
{
    if s.len() == 0 {
        seq![x]
    } else if s[0] == x {
        s
    } else if child_lt(x, s[0]) {
        seq![x] + s
    } else {
        seq![s[0]] + insert_sorted(s.drop_first(), x)
    }
}

/// The references met, each once, in the order they are followed.
pub open spec fn sorted_children(refs: Seq<(bool, ObjRef)>) -> Seq<(bool, ObjRef)>
    decreases refs.len(),
{
    if refs.len() == 0 {
        Seq::empty()
    } else {
        insert_sorted(sorted_children(refs.drop_last()), refs.last())
    }
}

/// The parse handed in for the stream object `r`: the first entry of the
/// table with its id.
pub open spec fn parsed_for(table: Seq<(ObjRef, Result<Vec<String>, String>)>, r: ObjRef) -> Option<
    Result<Seq<Seq<char>>, Seq<char>>,
>
    decreases table.len(),
{
    if table.len() == 0 {
        None
    } else if table[0].0 == r {
        Some(
            match table[0].1 {
                Ok(v) => Ok(views(v@)),
                Err(e) => Err(e@),
            },
        )
    } else {
        parsed_for(table.drop_first(), r)
    }
}

/// How many of the references met lead to ids not yet shown.
pub open spec fn unvisited_count(cl: Seq<(bool, ObjRef)>, visited: Seq<ObjRef>) -> nat {
    cl.filter(|c: (bool, ObjRef)| !visited.contains(c.1)).len()
}

pub open spec fn separator() -> Seq<char> {
    "--------------------------------\n\n"@
}

/// The walk from one object at `depth`, with the ids in `visited` already
/// shown: the text written and the ids shown afterwards. An object is shown
/// under an `Object n g:` heading; then, unless `depth` reached the depth
/// limit (where the references not followed are counted), the references
/// it holds are followed in the order of `sorted_children`, each not yet
/// shown after a separator line. Below `fuel` levels the references of a
/// shown object are not followed (one level per object always suffices:
/// see `law_dump_fuel`).
pub open spec fn dump_node(
    objs: Seq<(ObjRef, PdfValue)>,
    table: Seq<(ObjRef, Result<Vec<String>, String>)>,
    r: ObjRef,
    is_contents: bool,
    visited: Seq<ObjRef>,
    depth: nat,
    config: DumpConfig,
    fuel: nat,
) -> (Seq<char>, Seq<ObjRef>)
    decreases fuel, 0nat, 0nat,
{
    if visited.contains(r) {
        (Seq::empty(), visited)
    } else {
        let v2 = visited.push(r);
        let head = "Object "@ + id_text(r) + ":\n"@;
        match get_object(objs, r) {
            None => (head + "  Error getting object: "@ + failure_text(lookup_failure(objs, r)) + "\n"@, v2),
            Some(i) => {
                let v = objs[i].1;
                let body = head + object_text(
                    v,
                    "  "@,
                    is_contents,
                    objs,
                    Seq::empty(),
                    config,
                    parsed_for(table, objs[i].0),
                ) + "\n\n"@;
                let cl = sorted_children(flagged_refs(v, is_contents));
                if config.depth matches Some(m) && depth >= m {
                    let n = unvisited_count(cl, v2);
                    (
                        body + if n > 0 {
                            "  (depth limit reached, "@ + dec(n) + " references not followed)\n"@
                        } else {
                            Seq::empty()
                        },
                        v2,
                    )
                } else if fuel == 0 {
                    (body, v2)
                } else {
                    let k = dump_kids(objs, table, cl, v2, depth + 1, config, (fuel - 1) as nat, cl.len());
                    (body + k.0, k.1)
                }
            },
        }
    }
}

/// The walk from the first `n` of the references `cl`, in turn, each not
/// yet shown after a separator line.
pub open spec fn dump_kids(
    objs: Seq<(ObjRef, PdfValue)>,
    table: Seq<(ObjRef, Result<Vec<String>, String>)>,
    cl: Seq<(bool, ObjRef)>,
    visited: Seq<ObjRef>,
    depth: nat,
    config: DumpConfig,
    fuel: nat,
    n: nat,
) -> (Seq<char>, Seq<ObjRef>)
    decreases fuel, 1nat, n,
{
    if n == 0 {
        (Seq::empty(), visited)
    } else {
        let prev = dump_kids(objs, table, cl, visited, depth, config, fuel, (n - 1) as nat);
        let c = cl[n - 1];
        if prev.1.contains(c.1) {
            prev
        } else {
            let w = dump_node(objs, table, c.1, c.0, prev.1, depth, config, fuel);
            (prev.0 + separator() + w.0, w.1)
        }
    }
}

fn insert_child(s: &mut Vec<(bool, ObjRef)>, x: (bool, ObjRef))
    ensures
        final(s)@ == insert_sorted(old(s)@, x),
{
    let ghost s0 = s@;
    let mut i: usize = 0;
    assert(s0.take(0) + s0.skip(0) =~= s0);
    assert(s0.take(0) =~= Seq::<(bool, ObjRef)>::empty());
    assert(s0.skip(0) =~= s0);
    while i < s.len()
        invariant
            s@ == s0,
            i <= s0.len(),
            insert_sorted(s0, x) == s0.take(i as int) + insert_sorted(s0.skip(i as int), x),
        ensures
            s@ == s0,
            i <= s0.len(),
            insert_sorted(s0, x) == s0.take(i as int) + insert_sorted(s0.skip(i as int), x),
            i < s0.len() ==> (s0[i as int] == x || child_lt(x, s0[i as int])),
        decreases s.len() - i,
    {
        let c = s[i];
        let lt = (!x.0 && c.0) || (x.0 == c.0 && (x.1.num < c.1.num || (x.1.num == c.1.num && x.1.gen < c.1.gen)));
        if (c.0 == x.0 && c.1 == x.1) || lt {
            break;
        }
        assert(s0.skip(i as int)[0] == c);
        assert(s0.skip(i as int).drop_first() =~= s0.skip(i + 1));
        assert(s0.take(i + 1) =~= s0.take(i as int) + seq![c]);
        i = i + 1;
    }
    if i < s.len() {
        let c = s[i];
        assert(s0.skip(i as int)[0] == c);
        if c.0 == x.0 && c.1 == x.1 {
            assert(s0.take(i as int) + s0.skip(i as int) =~= s0);
            return;
        }
    } else {
        assert(s0.skip(i as int) =~= Seq::<(bool, ObjRef)>::empty());
    }
    s.insert(i, x);
    assert(s@ =~= s0.take(i as int) + (seq![x] + s0.skip(i as int)));
}

fn sort_children(refs: &Vec<(bool, ObjRef)>) -> (r: Vec<(bool, ObjRef)>)
    ensures
        r@ == sorted_children(refs@),
{
    let mut r: Vec<(bool, ObjRef)> = Vec::new();
    let mut i: usize = 0;
    assert(refs@.take(0) =~= Seq::<(bool, ObjRef)>::empty());
    while i < refs.len()
        invariant
            i <= refs@.len(),
            r@ == sorted_children(refs@.take(i as int)),
        decreases refs.len() - i,
    {
        assert(refs@.take(i + 1).drop_last() =~= refs@.take(i as int));
        assert(refs@.take(i + 1).last() == refs@[i as int]);
        insert_child(&mut r, refs[i]);
        i = i + 1;
    }
    assert(refs@.take(i as int) =~= refs@);
    r
}

fn find_parsed(table: &Vec<(ObjRef, Result<Vec<String>, String>)>, r: ObjRef) -> (p: Option<&Result<Vec<String>, String>>)
    ensures
        parsed_views(p) == parsed_for(table@, r),
{
    let mut i: usize = 0;
    assert(table@.skip(0) =~= table@);
    while i < table.len()
        invariant
            i <= table@.len(),
            parsed_for(table@, r) == parsed_for(table@.skip(i as int), r),
        decreases table.len() - i,
    {
        assert(table@.skip(i as int)[0] == table@[i as int]);
        if table[i].0 == r {
            return Some(&table[i].1);
        }
        assert(table@.skip(i as int).drop_first() =~= table@.skip(i + 1));
        i = i + 1;
    }
    None
}

fn count_unvisited(cl: &Vec<(bool, ObjRef)>, visited: &Vec<ObjRef>) -> (n: usize)
    ensures
        n == unvisited_count(cl@, visited@),
{
    let ghost f = |c: (bool, ObjRef)| !visited@.contains(c.1);
    let mut n: usize = 0;
    let mut i: usize = 0;
    assert(cl@.take(0) =~= Seq::<(bool, ObjRef)>::empty());
    while i < cl.len()
        invariant
            i <= cl@.len(),
            n <= i,
            f == (|c: (bool, ObjRef)| !visited@.contains(c.1)),
            n == cl@.take(i as int).filter(f).len(),
        decreases cl.len() - i,
    {
        assert(cl@.take(i + 1).drop_last() =~= cl@.take(i as int));
        assert(cl@.take(i + 1).last() == cl@[i as int]);
        reveal(Seq::filter);
        if !contains_ref(visited, cl[i].1) {
            n = n + 1;
        }
        i = i + 1;
    }
    assert(cl@.take(i as int) =~= cl@);
    n
}

fn push_id_heading(out: &mut String, r: ObjRef)
    ensures
        final(out)@ == old(out)@ + "Object "@ + id_text(r) + ":\n"@,
{
    push_str(out, "Object ");
    push_dec(out, r.num as u64);
    push_str(out, " ");
    push_dec(out, r.gen as u64);
    push_str(out, ":\n");
}

fn push_lookup_error(out: &mut String, doc: &PdfDoc, r: ObjRef)
    requires
        objects_sorted(doc.objects@),
    ensures
        final(out)@ == old(out)@ + "  Error getting object: "@ + failure_text(lookup_failure(doc.objects@, r)) + "\n"@,
{
    push_str(out, "  Error getting object: ");
    let e = lookup_error(doc, r);
    push_str(out, e.as_str());
    push_str(out, "\n");
}

/// Writes the object at position `i` and gives the references it holds in
/// the order they are followed.
fn show_object(
    out: &mut String,
    doc: &PdfDoc,
    i: usize,
    config: &DumpConfig,
    is_contents: bool,
    table: &Vec<(ObjRef, Result<Vec<String>, String>)>,
) -> (cl: Vec<(bool, ObjRef)>)
    requires
        objects_sorted(doc.objects@),
        i < doc.objects@.len(),
    ensures
        final(out)@ == old(out)@ + object_text(
            doc.objects@[i as int].1,
            "  "@,
            is_contents,
            doc.objects@,
            Seq::empty(),
            *config,
            parsed_for(table@, doc.objects@[i as int].0),
        ) + "\n\n"@,
        cl@ == sorted_children(flagged_refs(doc.objects@[i as int].1, is_contents)),
{
    let v = &doc.objects[i].1;
    let parsed = find_parsed(table, doc.objects[i].0);
    let no_visits: Vec<ObjRef> = Vec::new();
    let mut refs: Vec<(bool, ObjRef)> = Vec::new();
    let t = print_object(v, doc, &no_visits, 1, config, is_contents, parsed, &mut refs);
    proof {
        reveal_with_fuel(crate::tree::indent, 2);
        assert(no_visits@ =~= Seq::<ObjRef>::empty());
        assert(refs@ =~= flagged_refs(*v, is_contents));
    }
    push_str(out, t.as_str());
    push_str(out, "\n\n");
    sort_children(&refs)
}

fn push_depth_note(out: &mut String, cl: &Vec<(bool, ObjRef)>, visited: &Vec<ObjRef>)
    ensures
        final(out)@ == old(out)@ + if unvisited_count(cl@, visited@) > 0 {
            "  (depth limit reached, "@ + dec(unvisited_count(cl@, visited@)) + " references not followed)\n"@
        } else {
            Seq::<char>::empty()
        },
{
    let n = count_unvisited(cl, visited);
    if n > 0 {
        push_str(out, "  (depth limit reached, ");
        push_dec(out, n as u64);
        push_str(out, " references not followed)\n");
    } else {
        assert(out@ =~= old(out)@ + Seq::<char>::empty());
    }
}

#[verifier::rlimit(40)]
fn dump_walk(
    out: &mut String,
    r: ObjRef,
    doc: &PdfDoc,
    visited: &mut Vec<ObjRef>,
    config: &DumpConfig,
    is_contents: bool,
    depth: usize,
    table: &Vec<(ObjRef, Result<Vec<String>, String>)>,
    fuel: usize,
)
    requires
        objects_sorted(doc.objects@),
        depth + fuel < usize::MAX,
    ensures
        final(out)@ == old(out)@ + dump_node(
            doc.objects@,
            table@,
            r,
            is_contents,
            old(visited)@,
            depth as nat,
            *config,
            fuel as nat,
        ).0,
        final(visited)@ == dump_node(
            doc.objects@,
            table@,
            r,
            is_contents,
            old(visited)@,
            depth as nat,
            *config,
            fuel as nat,
        ).1,
    decreases fuel, 0nat, 0nat,
{
    let ghost objs = doc.objects@;
    let ghost res = dump_node(objs, table@, r, is_contents, visited@, depth as nat, *config, fuel as nat);
    if contains_ref(visited, r) {
        return;
    }
    let ghost o0 = out@;
    visited.push(r);
    push_id_heading(out, r);
    match resolve_object(&doc.objects, r) {
        None => {
            push_lookup_error(out, doc, r);
        },
        Some(i) => {
            let cl = show_object(out, doc, i, config, is_contents, table);
            if let Some(m) = config.depth {
                if depth >= m {
                    push_depth_note(out, &cl, visited);
                    return;
                }
            }
            if fuel > 0 {
                let ghost mid = out@;
                dump_kids_walk(out, &cl, doc, visited, config, depth + 1, table, fuel - 1);
                assert(out@ =~= o0 + res.0);
            }
        },
    }
}

fn dump_kids_walk(
    out: &mut String,
    cl: &Vec<(bool, ObjRef)>,
    doc: &PdfDoc,
    visited: &mut Vec<ObjRef>,
    config: &DumpConfig,
    depth: usize,
    table: &Vec<(ObjRef, Result<Vec<String>, String>)>,
    fuel: usize,
)
    requires
        objects_sorted(doc.objects@),
        depth + fuel < usize::MAX,
    ensures
        final(out)@ == old(out)@ + dump_kids(
            doc.objects@,
            table@,
            cl@,
            old(visited)@,
            depth as nat,
            *config,
            fuel as nat,
            cl@.len(),
        ).0,
        final(visited)@ == dump_kids(
            doc.objects@,
            table@,
            cl@,
            old(visited)@,
            depth as nat,
            *config,
            fuel as nat,
            cl@.len(),
        ).1,
    decreases fuel, 1nat, 0nat,
{
    let ghost v0 = visited@;
    let ghost o0 = out@;
    let mut k: usize = 0;
    assert(o0 =~= o0 + dump_kids(doc.objects@, table@, cl@, v0, depth as nat, *config, fuel as nat, 0).0);
    while k < cl.len()
        invariant
            objects_sorted(doc.objects@),
            depth + fuel < usize::MAX,
            k <= cl@.len(),
            out@ == o0 + dump_kids(doc.objects@, table@, cl@, v0, depth as nat, *config, fuel as nat, k as nat).0,
            visited@ == dump_kids(doc.objects@, table@, cl@, v0, depth as nat, *config, fuel as nat, k as nat).1,
        decreases cl.len() - k,
    {
        let c = cl[k];
        if !contains_ref(visited, c.1) {
            push_str(out, "--------------------------------\n\n");
            dump_walk(out, c.1, doc, visited, config, c.0, depth, table, fuel);
        }
        assert(out@ =~= o0 + dump_kids(doc.objects@, table@, cl@, v0, depth as nat, *config, fuel as nat, (k + 1) as nat).0);
        k = k + 1;
    }
}

/// Shows the object `obj_id` and then, depth first, the objects its
/// references lead to, each once (see `dump_node`); the ids shown are added
/// to `visited`. `contents` holds, for stream objects, the parse of their
/// decoded content into operations (or the parser's error), used where a
/// stream is reached as page content.
pub fn dump_object_and_children(
    out: &mut String,
    obj_id: ObjRef,
    doc: &PdfDoc,
    visited: &mut Vec<ObjRef>,
    config: &DumpConfig,
    is_contents: bool,
    current_depth: usize,
    contents: &Vec<(ObjRef, Result<Vec<String>, String>)>,
)
    requires
        objects_sorted(doc.objects@),
        current_depth + doc.objects@.len() < usize::MAX,
    ensures
        final(out)@ == old(out)@ + dump_node(
            doc.objects@,
            contents@,
            obj_id,
            is_contents,
            old(visited)@,
            current_depth as nat,
            *config,
            doc.objects@.len(),
        ).0,
        final(visited)@ == dump_node(
            doc.objects@,
            contents@,
            obj_id,
            is_contents,
            old(visited)@,
            current_depth as nat,
            *config,
            doc.objects@.len(),
        ).1,
{
    dump_walk(out, obj_id, doc, visited, config, is_contents, current_depth, contents, doc.objects.len());
}

/// An object by number, generation 0, written out in full under an
/// `Object n 0:` heading; `None` when no object can be had for that id.
pub fn print_single_object(doc: &PdfDoc, obj_num: u32, config: &DumpConfig) -> (r: Option<String>)
    requires
        objects_sorted(doc.objects@),
    ensures
        match get_object(doc.objects@, ObjRef { num: obj_num, gen: 0 }) {
            None => r is None,
            Some(i) => r is Some && r->0@ == "Object "@ + dec(obj_num as nat) + " 0:\n"@ + object_text(
                doc.objects@[i].1,
                "  "@,
                false,
                doc.objects@,
                Seq::empty(),
                *config,
                None,
            ) + "\n"@,
        },
{
    let id = ObjRef { num: obj_num, gen: 0 };
    match resolve_object(&doc.objects, id) {
        None => None,
        Some(i) => {
            let mut out = String::new();
            push_str(&mut out, "Object ");
            push_dec(&mut out, obj_num as u64);
            push_str(&mut out, " 0:\n");
            let no_visits: Vec<ObjRef> = Vec::new();
            let mut refs: Vec<(bool, ObjRef)> = Vec::new();
            let t = print_object(&doc.objects[i].1, doc, &no_visits, 1, config, false, None, &mut refs);
            proof {
                reveal_with_fuel(crate::tree::indent, 2);
                assert(no_visits@ =~= Seq::<ObjRef>::empty());
            }
            push_str(&mut out, t.as_str());
            push_str(&mut out, "\n");
            Some(out)
        },
    }
}

/// What `print_single_object` gives for `n`.
pub open spec fn single_text(objs: Seq<(ObjRef, PdfValue)>, n: u32, config: DumpConfig) -> Option<Seq<char>> {
    match get_object(objs, ObjRef { num: n, gen: 0 }) {
        None => None,
        Some(i) => Some(
            "Object "@ + dec(n as nat) + " 0:\n"@ + object_text(
                objs[i].1,
                "  "@,
                false,
                objs,
                Seq::empty(),
                config,
                None,
            ) + "\n"@,
        ),
    }
}

/// Several objects by number, in turn, a blank line between two; at the
/// first number with no object, the text so far and that number.
pub open spec fn objects_text(objs: Seq<(ObjRef, PdfValue)>, nums: Seq<u32>, config: DumpConfig) -> (Seq<char>, Option<u32>)
    decreases nums.len(),
{
    if nums.len() == 0 {
        (Seq::empty(), None)
    } else {
        let prev = objects_text(objs, nums.drop_last(), config);
        if prev.1 is Some {
            prev
        } else {
            let sep = if nums.len() > 1 {
                "\n"@
            } else {
                Seq::empty()
            };
            match single_text(objs, nums.last(), config) {
                None => (prev.0 + sep, Some(nums.last())),
                Some(t) => (prev.0 + sep + t, None),
            }
        }
    }
}

proof fn lemma_missing_stays(objs: Seq<(ObjRef, PdfValue)>, nums: Seq<u32>, config: DumpConfig, j: int, m: int)
    requires
        0 <= j <= m <= nums.len(),
        objects_text(objs, nums.take(j), config).1 is Some,
    ensures
        objects_text(objs, nums.take(m), config) == objects_text(objs, nums.take(j), config),
    decreases m - j,
{
    if m > j {
        lemma_missing_stays(objs, nums, config, j, m - 1);
        assert(nums.take(m).drop_last() =~= nums.take(m - 1));
    }
}

/// Several objects by number (see `objects_text`): the text, and the first
/// number with no object, if any.
pub fn print_objects(doc: &PdfDoc, nums: &Vec<u32>, config: &DumpConfig) -> (r: (String, Option<u32>))
    requires
        objects_sorted(doc.objects@),
    ensures
        r.0@ == objects_text(doc.objects@, nums@, *config).0,
        r.1 == objects_text(doc.objects@, nums@, *config).1,
{
    let mut out = String::new();
    let mut k: usize = 0;
    assert(nums@.take(0) =~= Seq::<u32>::empty());
    while k < nums.len()
        invariant
            objects_sorted(doc.objects@),
            k <= nums@.len(),
            objects_text(doc.objects@, nums@.take(k as int), *config) == (out@, None::<u32>),
        decreases nums.len() - k,
    {
        let n = nums[k];
        assert(nums@.take(k + 1).drop_last() =~= nums@.take(k as int));
        assert(nums@.take(k + 1).last() == n);
        if k > 0 {
            push_str(&mut out, "\n");
        }
        match print_single_object(doc, n, config) {
            None => {
                proof {
                    lemma_missing_stays(doc.objects@, nums@, *config, k + 1, nums@.len() as int);
                    assert(nums@.take(nums@.len() as int) =~= nums@);
                }
                return (out, Some(n));
            },
            Some(t) => {
                push_str(&mut out, t.as_str());
            },
        }
        k = k + 1;
    }
    assert(nums@.take(k as int) =~= nums@);
    (out, None)
}

// ── Laws ─────────────────────────────────────────────────────────────

proof fn lemma_node_keeps_visited(
    objs: Seq<(ObjRef, PdfValue)>,
    table: Seq<(ObjRef, Result<Vec<String>, String>)>,
    r: ObjRef,
    is_contents: bool,
    visited: Seq<ObjRef>,
    depth: nat,
    config: DumpConfig,
    fuel: nat,
)
    ensures
        forall|x: ObjRef|
            visited.contains(x) ==> #[trigger] dump_node(objs, table, r, is_contents, visited, depth, config, fuel).1.contains(
                x,
            ),
    decreases fuel, 0nat, 0nat,
{
    if !visited.contains(r) {
        let v2 = visited.push(r);
        assert forall|x: ObjRef| visited.contains(x) implies v2.contains(x) by {
            let j = choose|j: int| 0 <= j < visited.len() && visited[j] == x;
            assert(v2[j] == x);
        }
        if let Some(i) = get_object(objs, r) {
            let cl = sorted_children(flagged_refs(objs[i].1, is_contents));
            if !(config.depth matches Some(m) && depth >= m) && fuel > 0 {
                lemma_kids_keep_visited(objs, table, cl, v2, depth + 1, config, (fuel - 1) as nat, cl.len());
                let k = dump_kids(objs, table, cl, v2, depth + 1, config, (fuel - 1) as nat, cl.len());
                assert forall|x: ObjRef| visited.contains(x) implies #[trigger] dump_node(
                    objs,
                    table,
                    r,
                    is_contents,
                    visited,
                    depth,
                    config,
                    fuel,
                ).1.contains(x) by {
                    assert(v2.contains(x));
                    assert(k.1.contains(x));
                }
            }
        }
    }
}

proof fn lemma_kids_keep_visited(
    objs: Seq<(ObjRef, PdfValue)>,
    table: Seq<(ObjRef, Result<Vec<String>, String>)>,
    cl: Seq<(bool, ObjRef)>,
    visited: Seq<ObjRef>,
    depth: nat,
    config: DumpConfig,
    fuel: nat,
    n: nat,
)
    ensures
        forall|x: ObjRef| visited.contains(x) ==> #[trigger] dump_kids(objs, table, cl, visited, depth, config, fuel, n).1.contains(x),
    decreases fuel, 1nat, n,
{
    if n > 0 {
        lemma_kids_keep_visited(objs, table, cl, visited, depth, config, fuel, (n - 1) as nat);
        let prev = dump_kids(objs, table, cl, visited, depth, config, fuel, (n - 1) as nat);
        let c = cl[n - 1];
        if !prev.1.contains(c.1) {
            lemma_node_keeps_visited(objs, table, c.1, c.0, prev.1, depth, config, fuel);
            let w = dump_node(objs, table, c.1, c.0, prev.1, depth, config, fuel);
            assert forall|x: ObjRef| visited.contains(x) implies #[trigger] dump_kids(
                objs,
                table,
                cl,
                visited,
                depth,
                config,
                fuel,
                n,
            ).1.contains(x) by {
                assert(prev.1.contains(x));
                assert(w.1.contains(x));
            }
        }
    }
}

/// Following references from an object never needs more levels than there
/// are objects: when the objects on the current chain of shown ancestors
/// (`anc`, all in `visited`) and the levels left (`fuel`) together number at
/// least the objects, more levels give the same result.
pub proof fn law_dump_fuel(
    objs: Seq<(ObjRef, PdfValue)>,
    table: Seq<(ObjRef, Result<Vec<String>, String>)>,
    r: ObjRef,
    is_contents: bool,
    visited: Seq<ObjRef>,
    depth: nat,
    config: DumpConfig,
    anc: Seq<ObjRef>,
    fuel: nat,
    more: nat,
)
    requires
        anc.no_duplicates(),
        forall|i: int| 0 <= i < anc.len() ==> (#[trigger] lookup(objs, anc[i])) is Some,
        forall|i: int| 0 <= i < anc.len() ==> visited.contains(#[trigger] anc[i]),
        fuel + anc.len() >= objs.len(),
        fuel <= more,
    ensures
        dump_node(objs, table, r, is_contents, visited, depth, config, fuel) == dump_node(
            objs,
            table,
            r,
            is_contents,
            visited,
            depth,
            config,
            more,
        ),
    decreases fuel, 0nat, 0nat,
{
    if !visited.contains(r) {
        let v2 = visited.push(r);
        if let Some(i) = get_object(objs, r) {
            let anc2 = anc.push(r);
            assert(lookup(objs, r) is Some);
            assert(anc2.no_duplicates()) by {
                assert forall|a: int, b: int| 0 <= a < anc2.len() && 0 <= b < anc2.len() && a != b implies anc2[a] != anc2[b] by {
                    if a < anc.len() && b < anc.len() {
                        assert(anc[a] != anc[b]);
                    } else if a < anc.len() {
                        assert(visited.contains(anc[a]));
                    } else {
                        assert(visited.contains(anc[b]));
                    }
                }
            }
            assert forall|j: int| 0 <= j < anc2.len() implies (#[trigger] lookup(objs, anc2[j])) is Some by {
                if j < anc.len() {
                    assert(anc2[j] == anc[j]);
                }
            }
            let cl = sorted_children(flagged_refs(objs[i].1, is_contents));
            if !(config.depth matches Some(m) && depth >= m) {
                if fuel == 0 {
                    crate::validate::lemma_existing_distinct(objs, anc2);
                } else {
                    assert forall|j: int| 0 <= j < anc2.len() implies v2.contains(#[trigger] anc2[j]) by {
                        if j < anc.len() {
                            assert(anc2[j] == anc[j]);
                            let w = choose|w: int| 0 <= w < visited.len() && visited[w] == anc[j];
                            assert(v2[w] == anc[j]);
                        } else {
                            assert(v2[visited.len() as int] == r);
                        }
                    }
                    law_dump_kids_fuel(
                        objs,
                        table,
                        cl,
                        v2,
                        depth + 1,
                        config,
                        anc2,
                        (fuel - 1) as nat,
                        (more - 1) as nat,
                        cl.len(),
                    );
                }
            }
        }
    }
}

/// `law_dump_fuel` for the walk from the first `n` references of a list.
pub proof fn law_dump_kids_fuel(
    objs: Seq<(ObjRef, PdfValue)>,
    table: Seq<(ObjRef, Result<Vec<String>, String>)>,
    cl: Seq<(bool, ObjRef)>,
    visited: Seq<ObjRef>,
    depth: nat,
    config: DumpConfig,
    anc: Seq<ObjRef>,
    fuel: nat,
    more: nat,
    n: nat,
)
    requires
        anc.no_duplicates(),
        forall|i: int| 0 <= i < anc.len() ==> (#[trigger] lookup(objs, anc[i])) is Some,
        forall|i: int| 0 <= i < anc.len() ==> visited.contains(#[trigger] anc[i]),
        fuel + anc.len() >= objs.len(),
        fuel <= more,
    ensures
        dump_kids(objs, table, cl, visited, depth, config, fuel, n) == dump_kids(
            objs,
            table,
            cl,
            visited,
            depth,
            config,
            more,
            n,
        ),
    decreases fuel, 1nat, n,
{
    if n > 0 {
        law_dump_kids_fuel(objs, table, cl, visited, depth, config, anc, fuel, more, (n - 1) as nat);
        let prev = dump_kids(objs, table, cl, visited, depth, config, fuel, (n - 1) as nat);
        lemma_kids_keep_visited(objs, table, cl, visited, depth, config, fuel, (n - 1) as nat);
        assert forall|i: int| 0 <= i < anc.len() implies prev.1.contains(#[trigger] anc[i]) by {
            assert(visited.contains(anc[i]));
        }
        law_dump_fuel(objs, table, cl[n - 1].1, cl[n - 1].0, prev.1, depth, config, anc, fuel, more);
    }
}

pub open spec fn children_sorted(s: Seq<(bool, ObjRef)>) -> bool {
    forall|i: int, j: int| 0 <= i < j < s.len() ==> child_lt(#[trigger] s[i], #[trigger] s[j])
}

proof fn lemma_child_lt_order(a: (bool, ObjRef), b: (bool, ObjRef), c: (bool, ObjRef))
    ensures
        !child_lt(a, a),
        child_lt(a, b) && child_lt(b, c) ==> child_lt(a, c),
        a != b ==> child_lt(a, b) || child_lt(b, a),
{
}

proof fn lemma_insert_sorted(s: Seq<(bool, ObjRef)>, x: (bool, ObjRef))
    requires
        children_sorted(s),
    ensures
        children_sorted(insert_sorted(s, x)),
        forall|y: (bool, ObjRef)| #[trigger] insert_sorted(s, x).contains(y) <==> s.contains(y) || y == x,
    decreases s.len(),
{
    let r = insert_sorted(s, x);
    if s.len() == 0 {
        assert(r =~= seq![x]);
        assert forall|y: (bool, ObjRef)| #[trigger] r.contains(y) <==> s.contains(y) || y == x by {
            if r.contains(y) {
                assert(r[0] == y);
            }
            if y == x {
                assert(r[0] == y);
            }
        }
    } else if s[0] == x {
        assert forall|y: (bool, ObjRef)| #[trigger] r.contains(y) <==> s.contains(y) || y == x by {
            if y == x {
                assert(s[0] == y);
            }
        }
    } else if child_lt(x, s[0]) {
        assert(children_sorted(r)) by {
            assert forall|i: int, j: int| 0 <= i < j < r.len() implies child_lt(#[trigger] r[i], #[trigger] r[j]) by {
                if i == 0 {
                    if j > 1 {
                        assert(child_lt(s[0], s[j - 1]));
                        lemma_child_lt_order(x, s[0], s[j - 1]);
                    }
                } else {
                    assert(child_lt(s[i - 1], s[j - 1]));
                }
            }
        }
        assert forall|y: (bool, ObjRef)| #[trigger] r.contains(y) <==> s.contains(y) || y == x by {
            if r.contains(y) {
                let k = choose|k: int| 0 <= k < r.len() && r[k] == y;
                if k > 0 {
                    assert(s[k - 1] == y);
                }
            }
            if s.contains(y) {
                let k = choose|k: int| 0 <= k < s.len() && s[k] == y;
                assert(r[k + 1] == y);
            }
            if y == x {
                assert(r[0] == y);
            }
        }
    } else {
        lemma_child_lt_order(x, s[0], s[0]);
        assert(child_lt(s[0], x));
        let t = s.drop_first();
        assert(children_sorted(t)) by {
            assert forall|i: int, j: int| 0 <= i < j < t.len() implies child_lt(#[trigger] t[i], #[trigger] t[j]) by {
                assert(child_lt(s[i + 1], s[j + 1]));
            }
        }
        lemma_insert_sorted(t, x);
        let rest = insert_sorted(t, x);
        assert(r =~= seq![s[0]] + rest);
        assert forall|k: int| 0 <= k < rest.len() implies child_lt(s[0], #[trigger] rest[k]) by {
            let y = rest[k];
            assert(rest.contains(y));
            if y != x {
                assert(t.contains(y));
                let m = choose|m: int| 0 <= m < t.len() && t[m] == y;
                assert(child_lt(s[0], s[m + 1]));
            }
        }
        assert(children_sorted(r)) by {
            assert forall|i: int, j: int| 0 <= i < j < r.len() implies child_lt(#[trigger] r[i], #[trigger] r[j]) by {
                if i == 0 {
                    assert(r[j] == rest[j - 1]);
                } else {
                    assert(r[i] == rest[i - 1] && r[j] == rest[j - 1]);
                }
            }
        }
        assert forall|y: (bool, ObjRef)| #[trigger] r.contains(y) <==> s.contains(y) || y == x by {
            if r.contains(y) {
                let k = choose|k: int| 0 <= k < r.len() && r[k] == y;
                if k == 0 {
                    assert(s[0] == y);
                } else {
                    assert(rest[k - 1] == y);
                    assert(rest.contains(y));
                    if t.contains(y) {
                        let m = choose|m: int| 0 <= m < t.len() && t[m] == y;
                        assert(s[m + 1] == y);
                    }
                }
            }
            if s.contains(y) {
                let k = choose|k: int| 0 <= k < s.len() && s[k] == y;
                if k == 0 {
                    assert(r[0] == y);
                } else {
                    assert(t[k - 1] == y);
                    assert(t.contains(y));
                    assert(rest.contains(y));
                    let m = choose|m: int| 0 <= m < rest.len() && rest[m] == y;
                    assert(r[m + 1] == y);
                }
            }
            if y == x {
                assert(rest.contains(y));
                let m = choose|m: int| 0 <= m < rest.len() && rest[m] == y;
                assert(r[m + 1] == y);
            }
        }
    }
}

/// The references an object holds are followed each once and in order:
/// the list `sorted_children` makes of them is strictly ascending in the
/// order `child_lt` and holds exactly the references met.
pub proof fn law_children_sorted(refs: Seq<(bool, ObjRef)>)
    ensures
        children_sorted(sorted_children(refs)),
        forall|y: (bool, ObjRef)| #[trigger] sorted_children(refs).contains(y) <==> refs.contains(y),
    decreases refs.len(),
{
    if refs.len() > 0 {
        let p = refs.drop_last();
        law_children_sorted(p);
        lemma_insert_sorted(sorted_children(p), refs.last());
        assert forall|y: (bool, ObjRef)| #[trigger] sorted_children(refs).contains(y) <==> refs.contains(y) by {
            assert(sorted_children(p).contains(y) <==> p.contains(y));
            if p.contains(y) {
                let k = choose|k: int| 0 <= k < p.len() && p[k] == y;
                assert(refs[k] == y);
            }
            if refs.contains(y) {
                let k = choose|k: int| 0 <= k < refs.len() && refs[k] == y;
                if k < refs.len() - 1 {
                    assert(p[k] == y);
                }
            }
        }
    }
}

// ── Pages ────────────────────────────────────────────────────────────

/// The page numbered `n` (counting from 1).
pub open spec fn page_at(pages: Seq<ObjRef>, n: u32) -> Option<ObjRef> {
    if 1 <= n <= pages.len() {
        Some(pages[n - 1])
    } else {
        None
    }
}

/// The ids taken as already shown before walking from a page: its
/// `/Parent`, so that the walk stays within the page.
pub open spec fn page_seed(objs: Seq<(ObjRef, PdfValue)>, page: ObjRef) -> Seq<ObjRef> {
    match get_object(objs, page) {
        Some(i) => match objs[i].1 {
            PdfValue::Dictionary(es) => match entry_get(es@, key("Parent"@)) {
                Some(PdfValue::Reference(p)) => seq![p],
                _ => Seq::empty(),
            },
            _ => Seq::empty(),
        },
        None => Seq::empty(),
    }
}

/// One page: a heading with its number and id, then the walk from its
/// object.
pub open spec fn page_dump(
    objs: Seq<(ObjRef, PdfValue)>,
    table: Seq<(ObjRef, Result<Vec<String>, String>)>,
    n: u32,
    page: ObjRef,
    config: DumpConfig,
) -> Seq<char> {
    "Page "@ + dec(n as nat) + " (Object "@ + id_text(page) + "):\n"@ + dump_node(
        objs,
        table,
        page,
        false,
        page_seed(objs, page),
        0,
        config,
        objs.len(),
    ).0
}

pub open spec fn page_missing_msg(n: u32, total: nat) -> Seq<char> {
    "Page "@ + dec(n as nat) + " not found. Document has "@ + dec(total) + " pages."@
}

/// The pages numbered `nums`, in turn; at the first number with no page,
/// the text so far and the error.
pub open spec fn pages_dump(
    objs: Seq<(ObjRef, PdfValue)>,
    table: Seq<(ObjRef, Result<Vec<String>, String>)>,
    pages: Seq<ObjRef>,
    nums: Seq<u32>,
    config: DumpConfig,
) -> (Seq<char>, Option<Seq<char>>)
    decreases nums.len(),
{
    if nums.len() == 0 {
        (Seq::empty(), None)
    } else {
        let prev = pages_dump(objs, table, pages, nums.drop_last(), config);
        if prev.1 is Some {
            prev
        } else {
            match page_at(pages, nums.last()) {
                None => (prev.0, Some(page_missing_msg(nums.last(), pages.len()))),
                Some(p) => (prev.0 + page_dump(objs, table, nums.last(), p, config), None),
            }
        }
    }
}

proof fn lemma_error_stays(
    objs: Seq<(ObjRef, PdfValue)>,
    table: Seq<(ObjRef, Result<Vec<String>, String>)>,
    pages: Seq<ObjRef>,
    nums: Seq<u32>,
    config: DumpConfig,
    j: int,
    m: int,
)
    requires
        0 <= j <= m <= nums.len(),
        pages_dump(objs, table, pages, nums.take(j), config).1 is Some,
    ensures
        pages_dump(objs, table, pages, nums.take(m), config) == pages_dump(objs, table, pages, nums.take(j), config),
    decreases m - j,
{
    if m > j {
        lemma_error_stays(objs, table, pages, nums, config, j, m - 1);
        assert(nums.take(m).drop_last() =~= nums.take(m - 1));
    }
}

pub(crate) fn seed_for_page(doc: &PdfDoc, page: ObjRef) -> (v: Vec<ObjRef>)
    requires
        objects_sorted(doc.objects@),
    ensures
        v@ == page_seed(doc.objects@, page),
{
    let mut v: Vec<ObjRef> = Vec::new();
    match resolve_object(&doc.objects, page) {
        Some(i) => match &doc.objects[i].1 {
            PdfValue::Dictionary(es) => match find_entry(es, "Parent".as_bytes()) {
                Some(j) => match &es[j].1 {
                    PdfValue::Reference(p) => {
                        v.push(*p);
                        assert(v@ =~= seq![*p]);
                    },
                    _ => {},
                },
                None => {},
            },
            _ => {},
        },
        None => {},
    }
    v
}

fn push_page(
    out: &mut String,
    n: u32,
    page: ObjRef,
    doc: &PdfDoc,
    config: &DumpConfig,
    contents: &Vec<(ObjRef, Result<Vec<String>, String>)>,
)
    requires
        objects_sorted(doc.objects@),
        doc.objects@.len() + 1 < usize::MAX,
    ensures
        final(out)@ == old(out)@ + page_dump(doc.objects@, contents@, n, page, *config),
{
    push_str(out, "Page ");
    push_dec(out, n as u64);
    push_str(out, " (Object ");
    push_dec(out, page.num as u64);
    push_str(out, " ");
    push_dec(out, page.gen as u64);
    push_str(out, "):\n");
    let mut visited = seed_for_page(doc, page);
    dump_object_and_children(out, page, doc, &mut visited, config, false, 0, contents);
}

/// The walk from each selected page (see `pages_dump`): the text, and the
/// message for the first selected number that has no page, if any.
/// `pages` are the page objects in order.
pub fn dump_page(
    doc: &PdfDoc,
    pages: &Vec<ObjRef>,
    spec: &PageSpec,
    config: &DumpConfig,
    contents: &Vec<(ObjRef, Result<Vec<String>, String>)>,
) -> (r: (String, Option<String>))
    requires
        objects_sorted(doc.objects@),
        doc.objects@.len() + 1 < usize::MAX,
    ensures
        r.0@ == pages_dump(doc.objects@, contents@, pages@, spec_pages(*spec), *config).0,
        match pages_dump(doc.objects@, contents@, pages@, spec_pages(*spec), *config).1 {
            Some(e) => r.1 is Some && r.1->0@ == e,
            None => r.1 is None,
        },
{
    let nums = spec.pages();
    let mut out = String::new();
    let mut k: usize = 0;
    assert(nums@.take(0) =~= Seq::<u32>::empty());
    while k < nums.len()
        invariant
            objects_sorted(doc.objects@),
            doc.objects@.len() + 1 < usize::MAX,
            nums@ == spec_pages(*spec),
            k <= nums@.len(),
            pages_dump(doc.objects@, contents@, pages@, nums@.take(k as int), *config) == (out@, None::<Seq<char>>),
        decreases nums.len() - k,
    {
        let n = nums[k];
        assert(nums@.take(k + 1).drop_last() =~= nums@.take(k as int));
        assert(nums@.take(k + 1).last() == n);
        if n < 1 || n as usize > pages.len() {
            let mut e = String::new();
            push_str(&mut e, "Page ");
            push_dec(&mut e, n as u64);
            push_str(&mut e, " not found. Document has ");
            push_dec(&mut e, pages.len() as u64);
            push_str(&mut e, " pages.");
            proof {
                lemma_error_stays(doc.objects@, contents@, pages@, nums@, *config, k + 1, nums@.len() as int);
                assert(nums@.take(nums@.len() as int) =~= nums@);
            }
            return (out, Some(e));
        }
        let page = pages[(n - 1) as usize];
        push_page(&mut out, n, page, doc, config, contents);
        k = k + 1;
    }
    assert(nums@.take(k as int) =~= nums@);
    (out, None)
}

} // verus!
