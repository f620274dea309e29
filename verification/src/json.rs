//! Objects as JSON values: the value built for an object, and the sets of
//! objects reached from the trailer or from a page.
use vstd::prelude::*;
use crate::dump::{page_at, page_missing_msg, page_seed};
use crate::model::{dict_filter_names, get_object, lookup, objects_sorted, pdf_stream_of, refs_of, resolve_object, collect_refs, ObjRef, PdfDoc, PdfValue};
use crate::object::{has_binary, object_type_label, type_label};
use crate::refs::{enum_variant, kind_name};
use crate::summary::{detail_of, summary_detail};
use crate::stream::{cow_bytes, decode_stream, format_hex_dump, hex_dump_from, is_binary_stream, lossy_string, run_filters, utf8_lossy};
use crate::textbuf::{dec, push_dec, push_str};
use crate::tree::id_text;
use crate::types::{spec_pages, DumpConfig, PageSpec};
use crate::validate::{contains_ref, issue_views, IssueSpec, ValidationLevel, ValidationReport};
use crate::counts::{tally_views, Tally};
use crate::stats::{size_views, PdfStats};

verus! {

/// A JSON value as the library builds it. An object's members keep their
/// order; where two have the same key, the later one counts.
#[derive(Debug)]
pub enum Json {
    Null,
    Bool(bool),
    Int(i64),
    UInt(u64),
    /// A number by its decimal text.
    Num(String),
    Str(String),
    Array(Vec<Json>),
    Object(Vec<(String, Json)>),
}

/// The mathematical form of a JSON value.
pub enum JsonV {
    Null,
    Bool(bool),
    Int(int),
    Num(Seq<char>),
    Str(Seq<char>),
    Array(Seq<JsonV>),
    Object(Seq<(Seq<char>, JsonV)>),
}

pub open spec fn jv(j: Json) -> JsonV
    decreases j,
{
    match j {
        Json::Null => JsonV::Null,
        Json::Bool(b) => JsonV::Bool(b),
        Json::Int(i) => JsonV::Int(i as int),
        Json::UInt(u) => JsonV::Int(u as int),
        Json::Num(s) => JsonV::Num(s@),
        Json::Str(s) => JsonV::Str(s@),
        Json::Array(items) => JsonV::Array(jv_items(items@)),
        Json::Object(ms) => JsonV::Object(jv_members(ms@)),
    }
}

pub open spec fn jv_items(items: Seq<Json>) -> Seq<JsonV>
    decreases items,
{
    if items.len() == 0 {
        Seq::empty()
    } else {
        seq![jv(items[0])] + jv_items(items.subrange(1, items.len() as int))
    }
}

pub open spec fn jv_members(ms: Seq<(String, Json)>) -> Seq<(Seq<char>, JsonV)>
    decreases ms,
{
    if ms.len() == 0 {
        Seq::empty()
    } else {
        seq![(ms[0].0@, jv(ms[0].1))] + jv_members(ms.subrange(1, ms.len() as int))
    }
}

pub(crate) proof fn lemma_jv_items_len(items: Seq<Json>)
    ensures
        jv_items(items).len() == items.len(),
        forall|i: int| 0 <= i < items.len() ==> #[trigger] jv_items(items)[i] == jv(items[i]),
    decreases items.len(),
{
    if items.len() > 0 {
        let t = items.subrange(1, items.len() as int);
        lemma_jv_items_len(t);
        assert forall|i: int| 0 <= i < items.len() implies #[trigger] jv_items(items)[i] == jv(items[i]) by {
            if i > 0 {
                assert(t[i - 1] == items[i]);
            }
        }
    }
}

pub(crate) proof fn lemma_jv_items_push(items: Seq<Json>, x: Json)
    ensures
        jv_items(items.push(x)) == jv_items(items).push(jv(x)),
    decreases items.len(),
{
    let p = items.push(x);
    if items.len() == 0 {
        assert(p.subrange(1, p.len() as int) =~= Seq::<Json>::empty());
        assert(p[0] == x);
        assert(jv_items(Seq::<Json>::empty()) =~= Seq::<JsonV>::empty());
        assert(jv_items(p) =~= seq![jv(x)]);
    } else {
        let t = items.subrange(1, items.len() as int);
        assert(p.subrange(1, p.len() as int) =~= t.push(x));
        lemma_jv_items_push(t, x);
        assert(jv_items(p) =~= jv_items(items).push(jv(x)));
    }
}

pub(crate) proof fn lemma_jv_members_push(ms: Seq<(String, Json)>, x: (String, Json))
    ensures
        jv_members(ms.push(x)) == jv_members(ms).push((x.0@, jv(x.1))),
    decreases ms.len(),
{
    let p = ms.push(x);
    if ms.len() == 0 {
        assert(p.subrange(1, p.len() as int) =~= Seq::<(String, Json)>::empty());
        assert(p[0] == x);
        assert(jv_members(Seq::<(String, Json)>::empty()) =~= Seq::<(Seq<char>, JsonV)>::empty());
        assert(jv_members(p) =~= seq![(x.0@, jv(x.1))]);
    } else {
        let t = ms.subrange(1, ms.len() as int);
        assert(p.subrange(1, p.len() as int) =~= t.push(x));
        lemma_jv_members_push(t, x);
        assert(jv_members(p) =~= jv_members(ms).push((x.0@, jv(x.1))));
    }
}

pub(crate) fn text(s: &str) -> (r: String)
    ensures
        r@ == s@,
{
    let mut r = String::new();
    push_str(&mut r, s);
    r
}

/// Appends a member to a JSON object's members.
pub(crate) fn push_member(ms: &mut Vec<(String, Json)>, k: &str, v: Json)
    ensures
        jv_members(final(ms)@) == jv_members(old(ms)@).push((k@, jv(v))),
{
    let ghost before = ms@;
    let ghost jvv = jv(v);
    ms.push((text(k), v));
    proof {
        lemma_jv_members_push(before, ms@.last());
    }
}

pub open spec fn member(k: Seq<char>, v: JsonV) -> (Seq<char>, JsonV) {
    (k, v)
}

pub open spec fn binary_note(n: nat) -> Seq<char> {
    "<binary, "@ + dec(n) + " bytes>"@
}

/// Binary content cut to the truncation limit, for a hex dump.
pub open spec fn cut(content: Seq<u8>, truncate: Option<usize>) -> Seq<u8> {
    match truncate {
        Some(limit) => if limit < content.len() {
            content.take(limit as int)
        } else {
            content
        },
        None => content,
    }
}

/// The members a stream adds for its content: with `raw`, the raw bytes as
/// text, as a hex dump, or as a note of their size; when decoding, the
/// warning if a filter failed, then the decoded bytes in the same way (a
/// note for binary content says whether truncation was asked for).
pub open spec fn stream_members(dict: Seq<(Vec<u8>, PdfValue)>, content: Seq<u8>, config: DumpConfig) -> Seq<
    (Seq<char>, JsonV),
> {
    if config.raw {
        if !has_binary(content) {
            seq![member("raw_content"@, JsonV::Str(utf8_lossy(content)))]
        } else if config.hex {
            seq![member("raw_content_hex"@, JsonV::Str(hex_dump_from(cut(content, config.truncate), 0)))]
        } else {
            seq![member("raw_content_binary"@, JsonV::Str(binary_note(content.len())))]
        }
    } else if config.decode {
        let d = run_filters(content, dict_filter_names(dict));
        let warn = match d.1 {
            Some(w) => seq![member("decode_warning"@, JsonV::Str(w))],
            None => Seq::empty(),
        };
        warn + if !has_binary(d.0) {
            seq![member("content"@, JsonV::Str(utf8_lossy(d.0)))]
        } else if config.hex {
            seq![member("content_hex"@, JsonV::Str(hex_dump_from(cut(d.0, config.truncate), 0)))]
        } else if config.truncate is Some {
            seq![member("content_truncated"@, JsonV::Str(binary_note(d.0.len())))]
        } else {
            seq![member("content_binary"@, JsonV::Str(binary_note(d.0.len())))]
        }
    } else {
        Seq::empty()
    }
}

pub open spec fn no_deref(config: DumpConfig) -> DumpConfig {
    DumpConfig {
        decode: config.decode,
        truncate: config.truncate,
        json: config.json,
        hex: config.hex,
        depth: config.depth,
        deref: false,
        raw: config.raw,
    }
}

pub open spec fn deref_rank(config: DumpConfig) -> int {
    if config.deref {
        1
    } else {
        0
    }
}

/// An object as JSON: its `type`, then its value, items, entries or
/// dictionary; a stream's content (see `stream_members`); a reference's
/// number and generation and, when following references, the object it
/// leads to (whose own references are then not followed).
pub open spec fn json_of(v: PdfValue, objs: Seq<(ObjRef, PdfValue)>, config: DumpConfig) -> JsonV
    decreases deref_rank(config), v,
{
    match v {
        PdfValue::Null => JsonV::Object(seq![member("type"@, JsonV::Str("null"@))]),
        PdfValue::Boolean(b) => JsonV::Object(
            seq![member("type"@, JsonV::Str("boolean"@)), member("value"@, JsonV::Bool(b))],
        ),
        PdfValue::Integer(i) => JsonV::Object(
            seq![member("type"@, JsonV::Str("integer"@)), member("value"@, JsonV::Int(i as int))],
        ),
        PdfValue::Real(r) => JsonV::Object(seq![member("type"@, JsonV::Str("real"@)), member("value"@, JsonV::Num(r@))]),
        PdfValue::Name(n) => JsonV::Object(
            seq![member("type"@, JsonV::Str("name"@)), member("value"@, JsonV::Str(utf8_lossy(n@)))],
        ),
        PdfValue::Str(s) => JsonV::Object(
            seq![member("type"@, JsonV::Str("string"@)), member("value"@, JsonV::Str(utf8_lossy(s@)))],
        ),
        PdfValue::Array(items) => JsonV::Object(
            seq![
                member("type"@, JsonV::Str("array"@)),
                member("items"@, JsonV::Array(json_items(items@, objs, config))),
            ],
        ),
        PdfValue::Dictionary(es) => JsonV::Object(
            seq![
                member("type"@, JsonV::Str("dictionary"@)),
                member("entries"@, JsonV::Object(json_entries(es@, objs, config))),
            ],
        ),
        PdfValue::Stream { dict, content } => JsonV::Object(
            seq![
                member("type"@, JsonV::Str("stream"@)),
                member("dict"@, JsonV::Object(json_entries(dict@, objs, config))),
            ] + stream_members(dict@, content@, config),
        ),
        PdfValue::Reference(r) => JsonV::Object(
            seq![
                member("type"@, JsonV::Str("reference"@)),
                member("object_number"@, JsonV::Int(r.num as int)),
                member("generation"@, JsonV::Int(r.gen as int)),
            ] + if config.deref {
                match get_object(objs, r) {
                    Some(i) => seq![member("resolved"@, json_of(objs[i].1, objs, no_deref(config)))],
                    None => Seq::empty(),
                }
            } else {
                Seq::empty()
            },
        ),
    }
}

pub open spec fn json_items(items: Seq<PdfValue>, objs: Seq<(ObjRef, PdfValue)>, config: DumpConfig) -> Seq<JsonV>
    decreases deref_rank(config), items,
{
    if items.len() == 0 {
        Seq::empty()
    } else {
        seq![json_of(items[0], objs, config)] + json_items(items.subrange(1, items.len() as int), objs, config)
    }
}

pub open spec fn json_entries(es: Seq<(Vec<u8>, PdfValue)>, objs: Seq<(ObjRef, PdfValue)>, config: DumpConfig) -> Seq<
    (Seq<char>, JsonV),
>
    decreases deref_rank(config), es,
{
    if es.len() == 0 {
        Seq::empty()
    } else {
        seq![member(utf8_lossy(es[0].0@), json_of(es[0].1, objs, config))] + json_entries(
            es.subrange(1, es.len() as int),
            objs,
            config,
        )
    }
}

fn binary_note_string(n: usize) -> (r: String)
    ensures
        r@ == binary_note(n as nat),
{
    let mut r = String::new();
    push_str(&mut r, "<binary, ");
    push_dec(&mut r, n as u64);
    push_str(&mut r, " bytes>");
    r
}

fn cut_bytes(content: &[u8], truncate: Option<usize>) -> (r: &[u8])
    ensures
        r@ == cut(content@, truncate),
{
    match truncate {
        Some(limit) => if limit < content.len() {
            vstd::slice::slice_subrange(content, 0, limit)
        } else {
            content
        },
        None => content,
    }
}

/// The member for content that is text, a hex dump, or a size note.
fn content_member(
    ms: &mut Vec<(String, Json)>,
    data: &[u8],
    hex: bool,
    truncate: Option<usize>,
    text_key: &str,
    hex_key: &str,
    note_key: &str,
)
    ensures
        jv_members(final(ms)@) == jv_members(old(ms)@).push(
            if !has_binary(data@) {
                member(text_key@, JsonV::Str(utf8_lossy(data@)))
            } else if hex {
                member(hex_key@, JsonV::Str(hex_dump_from(cut(data@, truncate), 0)))
            } else {
                member(note_key@, JsonV::Str(binary_note(data@.len())))
            },
        ),
{
    if !is_binary_stream(data) {
        push_member(ms, text_key, Json::Str(lossy_string(data)));
    } else if hex {
        push_member(ms, hex_key, Json::Str(format_hex_dump(cut_bytes(data, truncate))));
    } else {
        push_member(ms, note_key, Json::Str(binary_note_string(data.len())));
    }
}

fn push_stream_members(ms: &mut Vec<(String, Json)>, dict: &Vec<(Vec<u8>, PdfValue)>, content: &Vec<u8>, config: &DumpConfig)
    ensures
        jv_members(final(ms)@) == jv_members(old(ms)@) + stream_members(dict@, content@, *config),
{
    let ghost m0 = jv_members(ms@);
    if config.raw {
        content_member(ms, content.as_slice(), config.hex, config.truncate, "raw_content", "raw_content_hex", "raw_content_binary");
        assert(jv_members(ms@) =~= m0 + stream_members(dict@, content@, *config));
    } else if config.decode {
        let st = pdf_stream_of(dict, content);
        let (decoded, warning) = decode_stream(&st);
        match warning {
            Some(w) => push_member(ms, "decode_warning", Json::Str(w)),
            None => {},
        }
        let ghost m1 = jv_members(ms@);
        let data = cow_bytes(&decoded);
        let note_key = if config.truncate.is_some() {
            "content_truncated"
        } else {
            "content_binary"
        };
        content_member(ms, data, config.hex, config.truncate, "content", "content_hex", note_key);
        proof {
            reveal_strlit("content_truncated");
            reveal_strlit("content_binary");
        }
        assert(jv_members(ms@) =~= m0 + stream_members(dict@, content@, *config));
    } else {
        assert(jv_members(ms@) =~= m0 + stream_members(dict@, content@, *config));
    }
}

fn json_items_of(items: &Vec<PdfValue>, doc: &PdfDoc, config: &DumpConfig) -> (r: Vec<Json>)
    requires
        objects_sorted(doc.objects@),
    ensures
        jv_items(r@) == json_items(items@, doc.objects@, *config),
    decreases deref_rank(*config), items,
{
    let mut r: Vec<Json> = Vec::new();
    let mut i: usize = 0;
    assert(items@.subrange(0, items@.len() as int) =~= items@);
    assert(jv_items(r@) =~= Seq::<JsonV>::empty());
    while i < items.len()
        invariant
            objects_sorted(doc.objects@),
            i <= items@.len(),
            jv_items(r@) + json_items(items@.subrange(i as int, items@.len() as int), doc.objects@, *config)
                == json_items(items@, doc.objects@, *config),
        decreases items.len() - i,
    {
        let ghost rest = items@.subrange(i as int, items@.len() as int);
        assert(rest[0] == items@[i as int]);
        assert(rest.subrange(1, rest.len() as int) =~= items@.subrange(i + 1, items@.len() as int));
        proof {
            assert(decreases_to!(*items => items@));
            assert(decreases_to!(items@ => items@[i as int]));
        }
        let ghost before = r@;
        let j = object_to_json(&items[i], doc, config);
        r.push(j);
        proof {
            lemma_jv_items_push(before, j);
        }
        assert(jv_items(r@) + json_items(items@.subrange(i + 1, items@.len() as int), doc.objects@, *config)
            =~= jv_items(before) + json_items(rest, doc.objects@, *config));
        i = i + 1;
    }
    assert(items@.subrange(i as int, items@.len() as int) =~= Seq::<PdfValue>::empty());
    assert(jv_items(r@) =~= json_items(items@, doc.objects@, *config));
    r
}

fn json_entries_of(es: &Vec<(Vec<u8>, PdfValue)>, doc: &PdfDoc, config: &DumpConfig) -> (r: Vec<(String, Json)>)
    requires
        objects_sorted(doc.objects@),
    ensures
        jv_members(r@) == json_entries(es@, doc.objects@, *config),
    decreases deref_rank(*config), es,
{
    let mut r: Vec<(String, Json)> = Vec::new();
    let mut i: usize = 0;
    assert(es@.subrange(0, es@.len() as int) =~= es@);
    assert(jv_members(r@) =~= Seq::<(Seq<char>, JsonV)>::empty());
    while i < es.len()
        invariant
            objects_sorted(doc.objects@),
            i <= es@.len(),
            jv_members(r@) + json_entries(es@.subrange(i as int, es@.len() as int), doc.objects@, *config)
                == json_entries(es@, doc.objects@, *config),
        decreases es.len() - i,
    {
        let ghost rest = es@.subrange(i as int, es@.len() as int);
        assert(rest[0] == es@[i as int]);
        assert(rest.subrange(1, rest.len() as int) =~= es@.subrange(i + 1, es@.len() as int));
        proof {
            assert(decreases_to!(*es => es@[i as int].1));
        }
        let ghost before = r@;
        let k = lossy_string(es[i].0.as_slice());
        let j = object_to_json(&es[i].1, doc, config);
        r.push((k, j));
        proof {
            lemma_jv_members_push(before, r@.last());
        }
        assert(jv_members(r@) + json_entries(es@.subrange(i + 1, es@.len() as int), doc.objects@, *config)
            =~= jv_members(before) + json_entries(rest, doc.objects@, *config));
        i = i + 1;
    }
    assert(es@.subrange(i as int, es@.len() as int) =~= Seq::<(Vec<u8>, PdfValue)>::empty());
    assert(jv_members(r@) =~= json_entries(es@, doc.objects@, *config));
    r
}

fn typed(t: &str) -> (ms: Vec<(String, Json)>)
    ensures
        jv_members(ms@) == seq![member("type"@, JsonV::Str(t@))],
{
    let mut ms: Vec<(String, Json)> = Vec::new();
    assert(jv_members(ms@) =~= Seq::<(Seq<char>, JsonV)>::empty());
    push_member(&mut ms, "type", Json::Str(text(t)));
    assert(jv_members(ms@) =~= seq![member("type"@, JsonV::Str(t@))]);
    ms
}

/// An object as JSON (see `json_of`).
pub fn object_to_json(obj: &PdfValue, doc: &PdfDoc, config: &DumpConfig) -> (r: Json)
    requires
        objects_sorted(doc.objects@),
    ensures
        jv(r) == json_of(*obj, doc.objects@, *config),
    decreases deref_rank(*config), obj,
{
    match obj {
        PdfValue::Null => {
            let ms = typed("null");
            Json::Object(ms)
        },
        PdfValue::Boolean(b) => {
            let mut ms = typed("boolean");
            push_member(&mut ms, "value", Json::Bool(*b));
            assert(jv_members(ms@) =~= seq![member("type"@, JsonV::Str("boolean"@)), member("value"@, JsonV::Bool(*b))]);
            Json::Object(ms)
        },
        PdfValue::Integer(i) => {
            let mut ms = typed("integer");
            push_member(&mut ms, "value", Json::Int(*i));
            assert(jv_members(ms@) =~= seq![member("type"@, JsonV::Str("integer"@)), member("value"@, JsonV::Int(*i as int))]);
            Json::Object(ms)
        },
        PdfValue::Real(x) => {
            let mut ms = typed("real");
            push_member(&mut ms, "value", Json::Num(text(x.as_str())));
            assert(jv_members(ms@) =~= seq![member("type"@, JsonV::Str("real"@)), member("value"@, JsonV::Num(x@))]);
            Json::Object(ms)
        },
        PdfValue::Name(n) => {
            let mut ms = typed("name");
            push_member(&mut ms, "value", Json::Str(lossy_string(n.as_slice())));
            assert(jv_members(ms@) =~= seq![member("type"@, JsonV::Str("name"@)), member("value"@, JsonV::Str(utf8_lossy(n@)))]);
            Json::Object(ms)
        },
        PdfValue::Str(b) => {
            let mut ms = typed("string");
            push_member(&mut ms, "value", Json::Str(lossy_string(b.as_slice())));
            assert(jv_members(ms@) =~= seq![member("type"@, JsonV::Str("string"@)), member("value"@, JsonV::Str(utf8_lossy(b@)))]);
            Json::Object(ms)
        },
        PdfValue::Array(items) => {
            let mut ms = typed("array");
            let js = json_items_of(items, doc, config);
            push_member(&mut ms, "items", Json::Array(js));
            assert(jv_members(ms@) =~= seq![member("type"@, JsonV::Str("array"@)), member("items"@, JsonV::Array(json_items(items@, doc.objects@, *config)))]);
            Json::Object(ms)
        },
        PdfValue::Dictionary(es) => {
            let mut ms = typed("dictionary");
            let js = json_entries_of(es, doc, config);
            push_member(&mut ms, "entries", Json::Object(js));
            assert(jv_members(ms@) =~= seq![member("type"@, JsonV::Str("dictionary"@)), member("entries"@, JsonV::Object(json_entries(es@, doc.objects@, *config)))]);
            Json::Object(ms)
        },
        PdfValue::Stream { dict, content } => {
            let mut ms = typed("stream");
            let js = json_entries_of(dict, doc, config);
            push_member(&mut ms, "dict", Json::Object(js));
            let ghost m1 = jv_members(ms@);
            push_stream_members(&mut ms, dict, content, config);
            assert(jv_members(ms@) =~= seq![member("type"@, JsonV::Str("stream"@)), member("dict"@, JsonV::Object(json_entries(dict@, doc.objects@, *config)))] + stream_members(dict@, content@, *config));
            Json::Object(ms)
        },
        PdfValue::Reference(r) => {
            let mut ms = typed("reference");
            push_member(&mut ms, "object_number", Json::Int(r.num as i64));
            push_member(&mut ms, "generation", Json::Int(r.gen as i64));
            let ghost m1 = jv_members(ms@);
            assert(m1 =~= seq![
                member("type"@, JsonV::Str("reference"@)),
                member("object_number"@, JsonV::Int(r.num as int)),
                member("generation"@, JsonV::Int(r.gen as int)),
            ]);
            if config.deref {
                match resolve_object(&doc.objects, *r) {
                    Some(i) => {
                        let nd = DumpConfig {
                            decode: config.decode,
                            truncate: config.truncate,
                            json: config.json,
                            hex: config.hex,
                            depth: config.depth,
                            deref: false,
                            raw: config.raw,
                        };
                        let j = object_to_json(&doc.objects[i].1, doc, &nd);
                        push_member(&mut ms, "resolved", j);
                        assert(jv_members(ms@) =~= m1 + seq![member("resolved"@, jv(j))]);
                    },
                    None => {
                        assert(jv_members(ms@) =~= m1 + Seq::<(Seq<char>, JsonV)>::empty());
                    },
                }
            } else {
                assert(jv_members(ms@) =~= m1 + Seq::<(Seq<char>, JsonV)>::empty());
            }
            Json::Object(ms)
        },
    }
}

// ── Objects reached ──────────────────────────────────────────────────

/// The key under which an object is listed: `num:gen`.
pub open spec fn id_key(r: ObjRef) -> Seq<char> {
    dec(r.num as nat) + ":"@ + dec(r.gen as nat)
}

/// The walk from one id at `depth`, with the ids in `visited` already
/// taken: the objects listed (key and JSON) and the ids taken afterwards.
/// An id deeper than `max` is skipped; an id with no object is taken but
/// not listed; a listed object's references are walked in order one level
/// deeper. Below `fuel` levels they are not walked (one level per object
/// always suffices: see `law_reach_fuel`).
pub open spec fn reach_walk(
    objs: Seq<(ObjRef, PdfValue)>,
    r: ObjRef,
    visited: Seq<ObjRef>,
    depth: nat,
    max: Option<usize>,
    config: DumpConfig,
    fuel: nat,
) -> (Seq<(Seq<char>, JsonV)>, Seq<ObjRef>)
    decreases fuel, 0nat, 0nat,
{
    if visited.contains(r) {
        (Seq::empty(), visited)
    } else if max matches Some(m) && depth > m {
        (Seq::empty(), visited)
    } else {
        let v2 = visited.push(r);
        match get_object(objs, r) {
            None => (Seq::empty(), v2),
            Some(i) => {
                let head = seq![member(id_key(r), json_of(objs[i].1, objs, config))];
                if fuel == 0 {
                    (head, v2)
                } else {
                    let rs = refs_of(objs[i].1);
                    let k = reach_list(objs, rs, v2, depth + 1, max, config, (fuel - 1) as nat, rs.len());
                    (head + k.0, k.1)
                }
            },
        }
    }
}

/// The walk from the first `n` ids of `rs`, in turn.
pub open spec fn reach_list(
    objs: Seq<(ObjRef, PdfValue)>,
    rs: Seq<ObjRef>,
    visited: Seq<ObjRef>,
    depth: nat,
    max: Option<usize>,
    config: DumpConfig,
    fuel: nat,
    n: nat,
) -> (Seq<(Seq<char>, JsonV)>, Seq<ObjRef>)
    decreases fuel, 1nat, n,
{
    if n == 0 {
        (Seq::empty(), visited)
    } else {
        let prev = reach_list(objs, rs, visited, depth, max, config, fuel, (n - 1) as nat);
        let w = reach_walk(objs, rs[n - 1], prev.1, depth, max, config, fuel);
        (prev.0 + w.0, w.1)
    }
}

/// The trailer's values that are references, in order.
pub open spec fn trailer_refs(es: Seq<(Vec<u8>, PdfValue)>) -> Seq<ObjRef>
    decreases es.len(),
{
    if es.len() == 0 {
        Seq::empty()
    } else {
        match es.last().1 {
            PdfValue::Reference(r) => trailer_refs(es.drop_last()).push(r),
            _ => trailer_refs(es.drop_last()),
        }
    }
}

/// The settings under which reached objects are listed: no decoding, no
/// following of references.
pub open spec fn listing_config() -> DumpConfig {
    DumpConfig { decode: false, truncate: None, json: true, hex: false, depth: None, deref: false, raw: false }
}

/// The objects reached from the trailer's references, at most `max` levels
/// deep, each with its JSON.
pub open spec fn reachable_listing(d: PdfDoc, max: Option<usize>) -> Seq<(Seq<char>, JsonV)> {
    let rs = trailer_refs(d.trailer@);
    reach_list(d.objects@, rs, Seq::empty(), 0, max, listing_config(), d.objects@.len(), rs.len()).0
}

fn id_key_string(r: ObjRef) -> (s: String)
    ensures
        s@ == id_key(r),
{
    let mut s = String::new();
    push_dec(&mut s, r.num as u64);
    push_str(&mut s, ":");
    push_dec(&mut s, r.gen as u64);
    s
}

fn reach_walk_exec(
    out: &mut Vec<(String, Json)>,
    doc: &PdfDoc,
    r: ObjRef,
    visited: &mut Vec<ObjRef>,
    depth: usize,
    max: Option<usize>,
    config: &DumpConfig,
    fuel: usize,
)
    requires
        objects_sorted(doc.objects@),
        depth + fuel < usize::MAX,
    ensures
        jv_members(final(out)@) == jv_members(old(out)@) + reach_walk(
            doc.objects@,
            r,
            old(visited)@,
            depth as nat,
            max,
            *config,
            fuel as nat,
        ).0,
        final(visited)@ == reach_walk(doc.objects@, r, old(visited)@, depth as nat, max, *config, fuel as nat).1,
    decreases fuel, 0nat, 0nat,
{
    if contains_ref(visited, r) {
        assert(jv_members(out@) =~= jv_members(old(out)@) + Seq::<(Seq<char>, JsonV)>::empty());
        return;
    }
    if let Some(m) = max {
        if depth > m {
            assert(jv_members(out@) =~= jv_members(old(out)@) + Seq::<(Seq<char>, JsonV)>::empty());
            return;
        }
    }
    visited.push(r);
    match resolve_object(&doc.objects, r) {
        None => {
            assert(jv_members(out@) =~= jv_members(old(out)@) + Seq::<(Seq<char>, JsonV)>::empty());
        },
        Some(i) => {
            let ghost m0 = jv_members(out@);
            let k = id_key_string(r);
            let j = object_to_json(&doc.objects[i].1, doc, config);
            let ghost before = out@;
            out.push((k, j));
            proof {
                lemma_jv_members_push(before, out@.last());
            }
            if fuel > 0 {
                let mut rs: Vec<ObjRef> = Vec::new();
                collect_refs(&doc.objects[i].1, &mut rs);
                assert(rs@ =~= refs_of(doc.objects@[i as int].1));
                let ghost m1 = jv_members(out@);
                reach_list_exec(out, doc, &rs, visited, depth + 1, max, config, fuel - 1);
                assert(jv_members(out@) =~= m0 + reach_walk(
                    doc.objects@,
                    r,
                    old(visited)@,
                    depth as nat,
                    max,
                    *config,
                    fuel as nat,
                ).0);
            } else {
                assert(jv_members(out@) =~= m0 + reach_walk(
                    doc.objects@,
                    r,
                    old(visited)@,
                    depth as nat,
                    max,
                    *config,
                    fuel as nat,
                ).0);
            }
        },
    }
}

fn reach_list_exec(
    out: &mut Vec<(String, Json)>,
    doc: &PdfDoc,
    rs: &Vec<ObjRef>,
    visited: &mut Vec<ObjRef>,
    depth: usize,
    max: Option<usize>,
    config: &DumpConfig,
    fuel: usize,
)
    requires
        objects_sorted(doc.objects@),
        depth + fuel < usize::MAX,
    ensures
        jv_members(final(out)@) == jv_members(old(out)@) + reach_list(
            doc.objects@,
            rs@,
            old(visited)@,
            depth as nat,
            max,
            *config,
            fuel as nat,
            rs@.len(),
        ).0,
        final(visited)@ == reach_list(
            doc.objects@,
            rs@,
            old(visited)@,
            depth as nat,
            max,
            *config,
            fuel as nat,
            rs@.len(),
        ).1,
    decreases fuel, 1nat, 0nat,
{
    let ghost v0 = visited@;
    let ghost o0 = jv_members(out@);
    let mut k: usize = 0;
    assert(o0 =~= o0 + reach_list(doc.objects@, rs@, v0, depth as nat, max, *config, fuel as nat, 0).0);
    while k < rs.len()
        invariant
            objects_sorted(doc.objects@),
            depth + fuel < usize::MAX,
            k <= rs@.len(),
            jv_members(out@) == o0 + reach_list(doc.objects@, rs@, v0, depth as nat, max, *config, fuel as nat, k as nat).0,
            visited@ == reach_list(doc.objects@, rs@, v0, depth as nat, max, *config, fuel as nat, k as nat).1,
        decreases rs.len() - k,
    {
        reach_walk_exec(out, doc, rs[k], visited, depth, max, config, fuel);
        assert(jv_members(out@) =~= o0 + reach_list(
            doc.objects@,
            rs@,
            v0,
            depth as nat,
            max,
            *config,
            fuel as nat,
            (k + 1) as nat,
        ).0);
        k = k + 1;
    }
}

fn trailer_refs_of(es: &Vec<(Vec<u8>, PdfValue)>) -> (r: Vec<ObjRef>)
    ensures
        r@ == trailer_refs(es@),
{
    let mut r: Vec<ObjRef> = Vec::new();
    let mut i: usize = 0;
    assert(es@.take(0) =~= Seq::<(Vec<u8>, PdfValue)>::empty());
    while i < es.len()
        invariant
            i <= es@.len(),
            r@ == trailer_refs(es@.take(i as int)),
        decreases es.len() - i,
    {
        assert(es@.take(i + 1).drop_last() =~= es@.take(i as int));
        assert(es@.take(i + 1).last() == es@[i as int]);
        match &es[i].1 {
            PdfValue::Reference(x) => {
                r.push(*x);
            },
            _ => {},
        }
        i = i + 1;
    }
    assert(es@.take(i as int) =~= es@);
    r
}

/// The objects reached from the trailer's references, at most `max_depth`
/// levels deep, each under its `num:gen` key with its JSON (see
/// `reachable_listing`).
pub fn collect_reachable_objects(doc: &PdfDoc, max_depth: Option<usize>) -> (r: Vec<(String, Json)>)
    requires
        objects_sorted(doc.objects@),
        doc.objects@.len() + 1 < usize::MAX,
    ensures
        jv_members(r@) == reachable_listing(*doc, max_depth),
{
    let config = DumpConfig {
        decode: false,
        truncate: None,
        json: true,
        hex: false,
        depth: None,
        deref: false,
        raw: false,
    };
    let rs = trailer_refs_of(&doc.trailer);
    let mut out: Vec<(String, Json)> = Vec::new();
    let mut visited: Vec<ObjRef> = Vec::new();
    assert(visited@ =~= Seq::<ObjRef>::empty());
    assert(jv_members(out@) =~= Seq::<(Seq<char>, JsonV)>::empty());
    reach_list_exec(&mut out, doc, &rs, &mut visited, 0, max_depth, &config, doc.objects.len());
    assert(jv_members(out@) =~= reachable_listing(*doc, max_depth));
    out
}

/// The whole document as JSON: the trailer as a dictionary, and the
/// objects reached from it (see `reachable_listing`, with the depth limit
/// of `config`).
pub open spec fn dump_json_value(d: PdfDoc, config: DumpConfig) -> JsonV {
    JsonV::Object(
        seq![
            member(
                "trailer"@,
                JsonV::Object(
                    seq![
                        member("type"@, JsonV::Str("dictionary"@)),
                        member("entries"@, JsonV::Object(json_entries(d.trailer@, d.objects@, config))),
                    ],
                ),
            ),
            member("objects"@, JsonV::Object(reachable_listing(d, config.depth))),
        ],
    )
}

/// The whole document as JSON (see `dump_json_value`).
pub fn dump_json(doc: &PdfDoc, config: &DumpConfig) -> (r: Json)
    requires
        objects_sorted(doc.objects@),
        doc.objects@.len() + 1 < usize::MAX,
    ensures
        jv(r) == dump_json_value(*doc, *config),
{
    let mut t = typed("dictionary");
    let es = json_entries_of(&doc.trailer, doc, config);
    push_member(&mut t, "entries", Json::Object(es));
    let ghost tv = jv_members(t@);
    let objects = collect_reachable_objects(doc, config.depth);
    let mut ms: Vec<(String, Json)> = Vec::new();
    assert(jv_members(ms@) =~= Seq::<(Seq<char>, JsonV)>::empty());
    push_member(&mut ms, "trailer", Json::Object(t));
    push_member(&mut ms, "objects", Json::Object(objects));
    assert(jv_members(ms@) =~= seq![
        member("trailer"@, JsonV::Object(tv)),
        member("objects"@, JsonV::Object(reachable_listing(*doc, config.depth))),
    ]);
    assert(tv =~= seq![
        member("type"@, JsonV::Str("dictionary"@)),
        member("entries"@, JsonV::Object(json_entries(doc.trailer@, doc.objects@, *config))),
    ]);
    Json::Object(ms)
}

/// An object by number, generation 0, as JSON with its number.
pub open spec fn numbered_json(objs: Seq<(ObjRef, PdfValue)>, n: u32, config: DumpConfig) -> Option<JsonV> {
    match get_object(objs, ObjRef { num: n, gen: 0 }) {
        Some(i) => Some(
            JsonV::Object(
                seq![
                    member("object_number"@, JsonV::Int(n as int)),
                    member("generation"@, JsonV::Int(0)),
                    member("object"@, json_of(objs[i].1, objs, config)),
                ],
            ),
        ),
        None => None,
    }
}

/// An object by number, generation 0, as JSON with its number; `None`
/// when no object can be had for that id.
pub fn print_single_object_json(doc: &PdfDoc, obj_num: u32, config: &DumpConfig) -> (r: Option<Json>)
    requires
        objects_sorted(doc.objects@),
    ensures
        match numbered_json(doc.objects@, obj_num, *config) {
            Some(j) => r is Some && jv(r->0) == j,
            None => r is None,
        },
{
    match resolve_object(&doc.objects, ObjRef { num: obj_num, gen: 0 }) {
        None => None,
        Some(i) => {
            let j = object_to_json(&doc.objects[i].1, doc, config);
            let ghost jj = jv(j);
            let mut ms: Vec<(String, Json)> = Vec::new();
            assert(jv_members(ms@) =~= Seq::<(Seq<char>, JsonV)>::empty());
            push_member(&mut ms, "object_number", Json::Int(obj_num as i64));
            push_member(&mut ms, "generation", Json::Int(0));
            push_member(&mut ms, "object", j);
            assert(jv_members(ms@) =~= seq![
                member("object_number"@, JsonV::Int(obj_num as int)),
                member("generation"@, JsonV::Int(0)),
                member("object"@, jj),
            ]);
            Some(Json::Object(ms))
        },
    }
}

/// The entry for one number in a list of objects: the object as JSON, or
/// an error for a number with no object.
pub open spec fn listed_json(objs: Seq<(ObjRef, PdfValue)>, n: u32, config: DumpConfig) -> JsonV {
    match numbered_json(objs, n, config) {
        Some(j) => j,
        None => JsonV::Object(
            seq![
                member("object_number"@, JsonV::Int(n as int)),
                member("generation"@, JsonV::Int(0)),
                member("error"@, JsonV::Str("not found"@)),
            ],
        ),
    }
}

/// Several objects by number as JSON: for one number the object alone (or
/// `None` when it has no object), for several an `objects` array with an
/// entry per number.
pub open spec fn objects_json(objs: Seq<(ObjRef, PdfValue)>, nums: Seq<u32>, config: DumpConfig) -> Option<JsonV> {
    if nums.len() == 1 {
        numbered_json(objs, nums[0], config)
    } else {
        Some(
            JsonV::Object(
                seq![member("objects"@, JsonV::Array(nums.map_values(|n: u32| listed_json(objs, n, config))))],
            ),
        )
    }
}

/// Several objects by number as JSON (see `objects_json`).
pub fn print_objects_json(doc: &PdfDoc, nums: &Vec<u32>, config: &DumpConfig) -> (r: Option<Json>)
    requires
        objects_sorted(doc.objects@),
    ensures
        match objects_json(doc.objects@, nums@, *config) {
            Some(j) => r is Some && jv(r->0) == j,
            None => r is None,
        },
{
    if nums.len() == 1 {
        return print_single_object_json(doc, nums[0], config);
    }
    let mut items: Vec<Json> = Vec::new();
    let mut k: usize = 0;
    assert(jv_items(items@) =~= Seq::<JsonV>::empty());
    while k < nums.len()
        invariant
            objects_sorted(doc.objects@),
            k <= nums@.len(),
            jv_items(items@) == nums@.take(k as int).map_values(|n: u32| listed_json(doc.objects@, n, *config)),
        decreases nums.len() - k,
    {
        let n = nums[k];
        let item = match print_single_object_json(doc, n, config) {
            Some(j) => j,
            None => {
                let mut ms: Vec<(String, Json)> = Vec::new();
                assert(jv_members(ms@) =~= Seq::<(Seq<char>, JsonV)>::empty());
                push_member(&mut ms, "object_number", Json::Int(n as i64));
                push_member(&mut ms, "generation", Json::Int(0));
                push_member(&mut ms, "error", Json::Str(text("not found")));
                assert(jv_members(ms@) =~= seq![
                    member("object_number"@, JsonV::Int(n as int)),
                    member("generation"@, JsonV::Int(0)),
                    member("error"@, JsonV::Str("not found"@)),
                ]);
                Json::Object(ms)
            },
        };
        let ghost before = items@;
        items.push(item);
        proof {
            lemma_jv_items_push(before, item);
        }
        assert(nums@.take(k + 1).map_values(|n: u32| listed_json(doc.objects@, n, *config)) =~= nums@.take(
            k as int,
        ).map_values(|n: u32| listed_json(doc.objects@, n, *config)).push(listed_json(doc.objects@, n, *config)));
        k = k + 1;
    }
    assert(nums@.take(k as int) =~= nums@);
    let mut ms: Vec<(String, Json)> = Vec::new();
    assert(jv_members(ms@) =~= Seq::<(Seq<char>, JsonV)>::empty());
    let ghost iv = jv_items(items@);
    push_member(&mut ms, "objects", Json::Array(items));
    assert(jv_members(ms@) =~= seq![member("objects"@, JsonV::Array(iv))]);
    Some(Json::Object(ms))
}

// ── Pages as JSON ────────────────────────────────────────────────────

/// One page as JSON: its number and the objects reached from it without
/// leaving the page (see `page_seed`).
pub open spec fn page_json(objs: Seq<(ObjRef, PdfValue)>, n: u32, page: ObjRef, config: DumpConfig) -> JsonV {
    JsonV::Object(
        seq![
            member("page_number"@, JsonV::Int(n as int)),
            member(
                "objects"@,
                JsonV::Object(reach_walk(objs, page, page_seed(objs, page), 0, None, config, objs.len()).0),
            ),
        ],
    )
}

/// The pages numbered `nums` as JSON, in turn, or the message for the
/// first number with no page.
pub open spec fn pages_json(objs: Seq<(ObjRef, PdfValue)>, pages: Seq<ObjRef>, nums: Seq<u32>, config: DumpConfig) -> Result<
    Seq<JsonV>,
    Seq<char>,
>
    decreases nums.len(),
{
    if nums.len() == 0 {
        Ok(Seq::empty())
    } else {
        match pages_json(objs, pages, nums.drop_last(), config) {
            Err(e) => Err(e),
            Ok(prev) => match page_at(pages, nums.last()) {
                None => Err(page_missing_msg(nums.last(), pages.len())),
                Some(p) => Ok(prev.push(page_json(objs, nums.last(), p, config))),
            },
        }
    }
}

/// The selected pages as JSON: one page alone, several under `pages`.
pub open spec fn dump_page_json_value(
    objs: Seq<(ObjRef, PdfValue)>,
    pages: Seq<ObjRef>,
    nums: Seq<u32>,
    config: DumpConfig,
) -> Result<JsonV, Seq<char>> {
    match pages_json(objs, pages, nums, config) {
        Err(e) => Err(e),
        Ok(ps) => if ps.len() == 1 {
            Ok(ps[0])
        } else {
            Ok(JsonV::Object(seq![member("pages"@, JsonV::Array(ps))]))
        },
    }
}

proof fn lemma_pages_json_error(
    objs: Seq<(ObjRef, PdfValue)>,
    pages: Seq<ObjRef>,
    nums: Seq<u32>,
    config: DumpConfig,
    j: int,
    m: int,
)
    requires
        0 <= j <= m <= nums.len(),
        pages_json(objs, pages, nums.take(j), config) is Err,
    ensures
        pages_json(objs, pages, nums.take(m), config) == pages_json(objs, pages, nums.take(j), config),
    decreases m - j,
{
    if m > j {
        lemma_pages_json_error(objs, pages, nums, config, j, m - 1);
        assert(nums.take(m).drop_last() =~= nums.take(m - 1));
    }
}

fn page_json_of(doc: &PdfDoc, n: u32, page: ObjRef, config: &DumpConfig) -> (r: Json)
    requires
        objects_sorted(doc.objects@),
        doc.objects@.len() + 1 < usize::MAX,
    ensures
        jv(r) == page_json(doc.objects@, n, page, *config),
{
    let mut visited = crate::dump::seed_for_page(doc, page);
    let mut objects: Vec<(String, Json)> = Vec::new();
    assert(jv_members(objects@) =~= Seq::<(Seq<char>, JsonV)>::empty());
    reach_walk_exec(&mut objects, doc, page, &mut visited, 0, None, config, doc.objects.len());
    assert(jv_members(objects@) =~= reach_walk(
        doc.objects@,
        page,
        page_seed(doc.objects@, page),
        0,
        None,
        *config,
        doc.objects@.len(),
    ).0);
    let ghost ov = jv_members(objects@);
    let mut ms: Vec<(String, Json)> = Vec::new();
    assert(jv_members(ms@) =~= Seq::<(Seq<char>, JsonV)>::empty());
    push_member(&mut ms, "page_number", Json::Int(n as i64));
    push_member(&mut ms, "objects", Json::Object(objects));
    assert(jv_members(ms@) =~= seq![
        member("page_number"@, JsonV::Int(n as int)),
        member("objects"@, JsonV::Object(ov)),
    ]);
    Json::Object(ms)
}

/// The selected pages as JSON (see `dump_page_json_value`); the message
/// for the first selected number with no page, if any.
pub fn dump_page_json(doc: &PdfDoc, pages: &Vec<ObjRef>, spec: &PageSpec, config: &DumpConfig) -> (r: Result<Json, String>)
    requires
        objects_sorted(doc.objects@),
        doc.objects@.len() + 1 < usize::MAX,
    ensures
        match dump_page_json_value(doc.objects@, pages@, spec_pages(*spec), *config) {
            Ok(j) => r is Ok && jv(r->Ok_0) == j,
            Err(e) => r is Err && r->Err_0@ == e,
        },
{
    let nums = spec.pages();
    let mut outs: Vec<Json> = Vec::new();
    let mut k: usize = 0;
    assert(nums@.take(0) =~= Seq::<u32>::empty());
    assert(jv_items(outs@) =~= Seq::<JsonV>::empty());
    while k < nums.len()
        invariant
            objects_sorted(doc.objects@),
            doc.objects@.len() + 1 < usize::MAX,
            nums@ == spec_pages(*spec),
            k <= nums@.len(),
            pages_json(doc.objects@, pages@, nums@.take(k as int), *config) == Ok::<Seq<JsonV>, Seq<char>>(
                jv_items(outs@),
            ),
        decreases nums.len() - k,
    {
        let n = nums[k];
        assert(nums@.take(k + 1).drop_last() =~= nums@.take(k as int));
        assert(nums@.take(k + 1).last() == n);
        if n < 1 || n as usize > pages.len() {
            let mut e = String::new();
            push_str(&mut e, "Page ");
            push_dec(&mut e, n as u64);
            push_str(&mut e, " not found. Document has ");
            push_dec(&mut e, pages.len() as u64);
            push_str(&mut e, " pages.");
            proof {
                lemma_pages_json_error(doc.objects@, pages@, nums@, *config, k + 1, nums@.len() as int);
                assert(nums@.take(nums@.len() as int) =~= nums@);
            }
            return Err(e);
        }
        let page = pages[(n - 1) as usize];
        let j = page_json_of(doc, n, page, config);
        let ghost before = outs@;
        outs.push(j);
        proof {
            lemma_jv_items_push(before, j);
        }
        k = k + 1;
    }
    assert(nums@.take(k as int) =~= nums@);
    let ghost ov = jv_items(outs@);
    proof {
        lemma_jv_items_len(outs@);
    }
    if outs.len() == 1 {
        assert(ov[0] == jv(outs@[0]));
        let j = outs.pop().unwrap();
        return Ok(j);
    }
    let mut ms: Vec<(String, Json)> = Vec::new();
    assert(jv_members(ms@) =~= Seq::<(Seq<char>, JsonV)>::empty());
    push_member(&mut ms, "pages", Json::Array(outs));
    assert(jv_members(ms@) =~= seq![member("pages"@, JsonV::Array(ov))]);
    Ok(Json::Object(ms))
}

// ── The object list as JSON ──────────────────────────────────────────

pub open spec fn list_entry_json(r: ObjRef, v: PdfValue) -> JsonV {
    JsonV::Object(
        seq![
            member("object_number"@, JsonV::Int(r.num as int)),
            member("generation"@, JsonV::Int(r.gen as int)),
            member("kind"@, JsonV::Str(kind_name(v))),
            member("type"@, JsonV::Str(type_label(v))),
            member("detail"@, JsonV::Str(detail_of(v))),
        ],
    )
}

/// The object list as JSON: the version, the number of objects, and an
/// entry per object in id order with its kind, `/Type` and detail.
pub open spec fn list_json(d: PdfDoc, version: Seq<char>) -> JsonV {
    JsonV::Object(
        seq![
            member("version"@, JsonV::Str(version)),
            member("object_count"@, JsonV::Int(d.objects@.len() as int)),
            member(
                "objects"@,
                JsonV::Array(d.objects@.map_values(|e: (ObjRef, PdfValue)| list_entry_json(e.0, e.1))),
            ),
        ],
    )
}

/// The object list as JSON (see `list_json`).
pub fn list_json_value(doc: &PdfDoc, version: &str) -> (r: Json)
    ensures
        jv(r) == list_json(*doc, version@),
{
    let objs = &doc.objects;
    let mut items: Vec<Json> = Vec::new();
    let mut k: usize = 0;
    assert(jv_items(items@) =~= Seq::<JsonV>::empty());
    while k < objs.len()
        invariant
            objs@ == doc.objects@,
            k <= objs@.len(),
            jv_items(items@) == objs@.take(k as int).map_values(|e: (ObjRef, PdfValue)| list_entry_json(e.0, e.1)),
        decreases objs.len() - k,
    {
        let (id, v) = (objs[k].0, &objs[k].1);
        let mut ms: Vec<(String, Json)> = Vec::new();
        assert(jv_members(ms@) =~= Seq::<(Seq<char>, JsonV)>::empty());
        push_member(&mut ms, "object_number", Json::Int(id.num as i64));
        push_member(&mut ms, "generation", Json::Int(id.gen as i64));
        push_member(&mut ms, "kind", Json::Str(text(enum_variant(v))));
        push_member(&mut ms, "type", Json::Str(object_type_label(v)));
        push_member(&mut ms, "detail", Json::Str(summary_detail(v)));
        assert(jv_members(ms@) =~= seq![
            member("object_number"@, JsonV::Int(id.num as int)),
            member("generation"@, JsonV::Int(id.gen as int)),
            member("kind"@, JsonV::Str(kind_name(*v))),
            member("type"@, JsonV::Str(type_label(*v))),
            member("detail"@, JsonV::Str(detail_of(*v))),
        ]);
        let j = Json::Object(ms);
        let ghost before = items@;
        items.push(j);
        proof {
            lemma_jv_items_push(before, j);
        }
        assert(objs@.take(k + 1).map_values(|e: (ObjRef, PdfValue)| list_entry_json(e.0, e.1)) =~= objs@.take(
            k as int,
        ).map_values(|e: (ObjRef, PdfValue)| list_entry_json(e.0, e.1)).push(list_entry_json(id, *v)));
        k = k + 1;
    }
    assert(objs@.take(k as int) =~= objs@);
    let ghost iv = jv_items(items@);
    let mut ms: Vec<(String, Json)> = Vec::new();
    assert(jv_members(ms@) =~= Seq::<(Seq<char>, JsonV)>::empty());
    push_member(&mut ms, "version", Json::Str(text(version)));
    push_member(&mut ms, "object_count", Json::UInt(objs.len() as u64));
    push_member(&mut ms, "objects", Json::Array(items));
    assert(jv_members(ms@) =~= seq![
        member("version"@, JsonV::Str(version@)),
        member("object_count"@, JsonV::Int(doc.objects@.len() as int)),
        member("objects"@, JsonV::Array(iv)),
    ]);
    Json::Object(ms)
}

// ── Reports as JSON ──────────────────────────────────────────────────

pub open spec fn level_name(l: ValidationLevel) -> Seq<char> {
    match l {
        ValidationLevel::Error => "error"@,
        ValidationLevel::Warn => "warning"@,
        ValidationLevel::Info => "info"@,
    }
}

pub open spec fn issue_json(i: IssueSpec) -> JsonV {
    JsonV::Object(seq![member("level"@, JsonV::Str(level_name(i.0))), member("message"@, JsonV::Str(i.1))])
}

/// A validation report as JSON: the counts by level and each issue with
/// its level and message.
pub open spec fn validation_json(issues: Seq<IssueSpec>, errors: nat, warnings: nat, infos: nat) -> JsonV {
    JsonV::Object(
        seq![
            member("error_count"@, JsonV::Int(errors as int)),
            member("warning_count"@, JsonV::Int(warnings as int)),
            member("info_count"@, JsonV::Int(infos as int)),
            member("issues"@, JsonV::Array(issues.map_values(|i: IssueSpec| issue_json(i)))),
        ],
    )
}

/// A validation report as JSON (see `validation_json`).
pub fn print_validation_json(report: &ValidationReport) -> (r: Json)
    ensures
        jv(r) == validation_json(
            issue_views(report.issues@),
            report.error_count as nat,
            report.warn_count as nat,
            report.info_count as nat,
        ),
{
    let ghost iv = issue_views(report.issues@);
    let mut items: Vec<Json> = Vec::new();
    let mut k: usize = 0;
    assert(jv_items(items@) =~= Seq::<JsonV>::empty());
    while k < report.issues.len()
        invariant
            k <= report.issues@.len(),
            iv == issue_views(report.issues@),
            jv_items(items@) == iv.take(k as int).map_values(|i: IssueSpec| issue_json(i)),
        decreases report.issues.len() - k,
    {
        let issue = &report.issues[k];
        let lv = match issue.level {
            ValidationLevel::Error => "error",
            ValidationLevel::Warn => "warning",
            ValidationLevel::Info => "info",
        };
        let mut ms: Vec<(String, Json)> = Vec::new();
        assert(jv_members(ms@) =~= Seq::<(Seq<char>, JsonV)>::empty());
        push_member(&mut ms, "level", Json::Str(text(lv)));
        push_member(&mut ms, "message", Json::Str(text(issue.message.as_str())));
        assert(jv_members(ms@) =~= seq![
            member("level"@, JsonV::Str(level_name(issue.level))),
            member("message"@, JsonV::Str(issue.message@)),
        ]);
        let j = Json::Object(ms);
        let ghost before = items@;
        items.push(j);
        proof {
            lemma_jv_items_push(before, j);
        }
        assert(iv[k as int] == (issue.level, issue.message@));
        assert(iv.take(k + 1).map_values(|i: IssueSpec| issue_json(i)) =~= iv.take(k as int).map_values(
            |i: IssueSpec| issue_json(i),
        ).push(issue_json(iv[k as int])));
        k = k + 1;
    }
    assert(iv.take(k as int) =~= iv);
    let ghost items_v = jv_items(items@);
    let mut ms: Vec<(String, Json)> = Vec::new();
    assert(jv_members(ms@) =~= Seq::<(Seq<char>, JsonV)>::empty());
    push_member(&mut ms, "error_count", Json::UInt(report.error_count as u64));
    push_member(&mut ms, "warning_count", Json::UInt(report.warn_count as u64));
    push_member(&mut ms, "info_count", Json::UInt(report.info_count as u64));
    push_member(&mut ms, "issues", Json::Array(items));
    assert(jv_members(ms@) =~= seq![
        member("error_count"@, JsonV::Int(report.error_count as int)),
        member("warning_count"@, JsonV::Int(report.warn_count as int)),
        member("info_count"@, JsonV::Int(report.info_count as int)),
        member("issues"@, JsonV::Array(items_v)),
    ]);
    Json::Object(ms)
}

/// Counts by name as a JSON object.
pub open spec fn tally_json(t: Tally) -> JsonV {
    JsonV::Object(t.map_values(|e: (Seq<char>, nat)| member(e.0, JsonV::Int(e.1 as int))))
}

fn tally_to_json(v: &Vec<(String, usize)>) -> (r: Json)
    ensures
        jv(r) == tally_json(tally_views(v@)),
{
    let ghost tv = tally_views(v@);
    let mut ms: Vec<(String, Json)> = Vec::new();
    let mut k: usize = 0;
    assert(jv_members(ms@) =~= Seq::<(Seq<char>, JsonV)>::empty());
    while k < v.len()
        invariant
            k <= v@.len(),
            tv == tally_views(v@),
            jv_members(ms@) == tv.take(k as int).map_values(|e: (Seq<char>, nat)| member(e.0, JsonV::Int(e.1 as int))),
        decreases v.len() - k,
    {
        push_member(&mut ms, v[k].0.as_str(), Json::UInt(v[k].1 as u64));
        assert(tv[k as int] == (v@[k as int].0@, v@[k as int].1 as nat));
        assert(tv.take(k + 1).map_values(|e: (Seq<char>, nat)| member(e.0, JsonV::Int(e.1 as int))) =~= tv.take(
            k as int,
        ).map_values(|e: (Seq<char>, nat)| member(e.0, JsonV::Int(e.1 as int))).push(
            member(v@[k as int].0@, JsonV::Int(v@[k as int].1 as int)),
        ));
        k = k + 1;
    }
    assert(tv.take(k as int) =~= tv);
    Json::Object(ms)
}

pub open spec fn largest_json(l: Seq<(ObjRef, nat)>) -> Seq<JsonV> {
    l.map_values(
        |e: (ObjRef, nat)|
            JsonV::Object(
                seq![
                    member("object_number"@, JsonV::Int(e.0.num as int)),
                    member("generation"@, JsonV::Int(e.0.gen as int)),
                    member("size"@, JsonV::Int(e.1 as int)),
                ],
            ),
    )
}

/// Document statistics as JSON: page and object counts, kinds, stream
/// byte totals (as decimal numbers), filters, and the largest streams.
pub open spec fn stats_json(
    pages: nat,
    objects: nat,
    types: Tally,
    raw: nat,
    decoded: nat,
    filters: Tally,
    largest: Seq<(ObjRef, nat)>,
) -> JsonV {
    JsonV::Object(
        seq![
            member("page_count"@, JsonV::Int(pages as int)),
            member("object_count"@, JsonV::Int(objects as int)),
            member("type_counts"@, tally_json(types)),
            member("total_stream_bytes"@, JsonV::Num(dec(raw))),
            member("total_decoded_bytes"@, JsonV::Num(dec(decoded))),
            member("filter_counts"@, tally_json(filters)),
            member("largest_streams"@, JsonV::Array(largest_json(largest))),
        ],
    )
}

/// Document statistics as JSON (see `stats_json`).
pub fn print_stats_json(stats: &PdfStats) -> (r: Json)
    ensures
        jv(r) == stats_json(
            stats.page_count as nat,
            stats.object_count as nat,
            tally_views(stats.type_counts@),
            stats.total_stream_bytes as nat,
            stats.total_decoded_bytes as nat,
            tally_views(stats.filter_counts@),
            size_views(stats.largest_streams@),
        ),
{
    let ghost lv = size_views(stats.largest_streams@);
    let mut items: Vec<Json> = Vec::new();
    let mut k: usize = 0;
    assert(jv_items(items@) =~= Seq::<JsonV>::empty());
    while k < stats.largest_streams.len()
        invariant
            k <= stats.largest_streams@.len(),
            lv == size_views(stats.largest_streams@),
            jv_items(items@) == largest_json(lv.take(k as int)),
        decreases stats.largest_streams.len() - k,
    {
        let (id, size) = stats.largest_streams[k];
        let mut ms: Vec<(String, Json)> = Vec::new();
        assert(jv_members(ms@) =~= Seq::<(Seq<char>, JsonV)>::empty());
        push_member(&mut ms, "object_number", Json::Int(id.num as i64));
        push_member(&mut ms, "generation", Json::Int(id.gen as i64));
        push_member(&mut ms, "size", Json::UInt(size as u64));
        assert(jv_members(ms@) =~= seq![
            member("object_number"@, JsonV::Int(id.num as int)),
            member("generation"@, JsonV::Int(id.gen as int)),
            member("size"@, JsonV::Int(size as int)),
        ]);
        let j = Json::Object(ms);
        let ghost before = items@;
        items.push(j);
        proof {
            lemma_jv_items_push(before, j);
        }
        assert(lv[k as int] == (id, size as nat));
        assert(largest_json(lv.take(k + 1)) =~= largest_json(lv.take(k as int)).push(
            JsonV::Object(
                seq![
                    member("object_number"@, JsonV::Int(id.num as int)),
                    member("generation"@, JsonV::Int(id.gen as int)),
                    member("size"@, JsonV::Int(size as int)),
                ],
            ),
        ));
        k = k + 1;
    }
    assert(lv.take(k as int) =~= lv);
    let ghost items_v = jv_items(items@);
    let types = tally_to_json(&stats.type_counts);
    let filters = tally_to_json(&stats.filter_counts);
    let mut raw = String::new();
    crate::textbuf::push_dec_u128(&mut raw, stats.total_stream_bytes);
    let mut decoded = String::new();
    crate::textbuf::push_dec_u128(&mut decoded, stats.total_decoded_bytes);
    let ghost tj = jv(types);
    let ghost fj = jv(filters);
    let mut ms: Vec<(String, Json)> = Vec::new();
    assert(jv_members(ms@) =~= Seq::<(Seq<char>, JsonV)>::empty());
    push_member(&mut ms, "page_count", Json::UInt(stats.page_count as u64));
    push_member(&mut ms, "object_count", Json::UInt(stats.object_count as u64));
    push_member(&mut ms, "type_counts", types);
    push_member(&mut ms, "total_stream_bytes", Json::Num(raw));
    push_member(&mut ms, "total_decoded_bytes", Json::Num(decoded));
    push_member(&mut ms, "filter_counts", filters);
    push_member(&mut ms, "largest_streams", Json::Array(items));
    assert(jv_members(ms@) =~= seq![
        member("page_count"@, JsonV::Int(stats.page_count as int)),
        member("object_count"@, JsonV::Int(stats.object_count as int)),
        member("type_counts"@, tj),
        member("total_stream_bytes"@, JsonV::Num(dec(stats.total_stream_bytes as nat))),
        member("total_decoded_bytes"@, JsonV::Num(dec(stats.total_decoded_bytes as nat))),
        member("filter_counts"@, fj),
        member("largest_streams"@, JsonV::Array(items_v)),
    ]);
    Json::Object(ms)
}

// ── Laws ─────────────────────────────────────────────────────────────

proof fn lemma_reach_keeps_visited(
    objs: Seq<(ObjRef, PdfValue)>,
    r: ObjRef,
    visited: Seq<ObjRef>,
    depth: nat,
    max: Option<usize>,
    config: DumpConfig,
    fuel: nat,
)
    ensures
        forall|x: ObjRef| visited.contains(x) ==> #[trigger] reach_walk(objs, r, visited, depth, max, config, fuel).1.contains(x),
    decreases fuel, 0nat, 0nat,
{
    if !visited.contains(r) && !(max matches Some(m) && depth > m) {
        let v2 = visited.push(r);
        assert forall|x: ObjRef| visited.contains(x) implies v2.contains(x) by {
            let j = choose|j: int| 0 <= j < visited.len() && visited[j] == x;
            assert(v2[j] == x);
        }
        if let Some(i) = get_object(objs, r) {
            if fuel > 0 {
                let rs = refs_of(objs[i].1);
                lemma_list_keeps_visited(objs, rs, v2, depth + 1, max, config, (fuel - 1) as nat, rs.len());
                let k = reach_list(objs, rs, v2, depth + 1, max, config, (fuel - 1) as nat, rs.len());
                assert forall|x: ObjRef| visited.contains(x) implies #[trigger] reach_walk(
                    objs,
                    r,
                    visited,
                    depth,
                    max,
                    config,
                    fuel,
                ).1.contains(x) by {
                    assert(v2.contains(x));
                    assert(k.1.contains(x));
                }
            }
        }
    }
}

proof fn lemma_list_keeps_visited(
    objs: Seq<(ObjRef, PdfValue)>,
    rs: Seq<ObjRef>,
    visited: Seq<ObjRef>,
    depth: nat,
    max: Option<usize>,
    config: DumpConfig,
    fuel: nat,
    n: nat,
)
    ensures
        forall|x: ObjRef| visited.contains(x) ==> #[trigger] reach_list(objs, rs, visited, depth, max, config, fuel, n).1.contains(x),
    decreases fuel, 1nat, n,
{
    if n > 0 {
        lemma_list_keeps_visited(objs, rs, visited, depth, max, config, fuel, (n - 1) as nat);
        let prev = reach_list(objs, rs, visited, depth, max, config, fuel, (n - 1) as nat);
        lemma_reach_keeps_visited(objs, rs[n - 1], prev.1, depth, max, config, fuel);
        let w = reach_walk(objs, rs[n - 1], prev.1, depth, max, config, fuel);
        assert forall|x: ObjRef| visited.contains(x) implies #[trigger] reach_list(
            objs,
            rs,
            visited,
            depth,
            max,
            config,
            fuel,
            n,
        ).1.contains(x) by {
            assert(prev.1.contains(x));
            assert(w.1.contains(x));
        }
    }
}

/// Walking for reached objects never needs more levels than there are
/// objects: when the objects on the current chain of listed ancestors
/// (`anc`, all in `visited`) and the levels left (`fuel`) together number at
/// least the objects, more levels give the same result.
pub proof fn law_reach_fuel(
    objs: Seq<(ObjRef, PdfValue)>,
    r: ObjRef,
    visited: Seq<ObjRef>,
    depth: nat,
    max: Option<usize>,
    config: DumpConfig,
    anc: Seq<ObjRef>,
    fuel: nat,
    more: nat,
)
    requires
        anc.no_duplicates(),
        forall|i: int| 0 <= i < anc.len() ==> (#[trigger] lookup(objs, anc[i])) is Some,
        forall|i: int| 0 <= i < anc.len() ==> visited.contains(#[trigger] anc[i]),
        fuel + anc.len() >= objs.len(),
        fuel <= more,
    ensures
        reach_walk(objs, r, visited, depth, max, config, fuel) == reach_walk(objs, r, visited, depth, max, config, more),
    decreases fuel, 0nat, 0nat,
{
    if !visited.contains(r) && !(max matches Some(m) && depth > m) {
        let v2 = visited.push(r);
        if let Some(i) = get_object(objs, r) {
            let anc2 = anc.push(r);
            assert(lookup(objs, r) is Some);
            assert(anc2.no_duplicates()) by {
                assert forall|a: int, b: int| 0 <= a < anc2.len() && 0 <= b < anc2.len() && a != b implies anc2[a] != anc2[b] by {
                    if a < anc.len() && b < anc.len() {
                        assert(anc[a] != anc[b]);
                    } else if a < anc.len() {
                        assert(visited.contains(anc[a]));
                    } else {
                        assert(visited.contains(anc[b]));
                    }
                }
            }
            assert forall|j: int| 0 <= j < anc2.len() implies (#[trigger] lookup(objs, anc2[j])) is Some by {
                if j < anc.len() {
                    assert(anc2[j] == anc[j]);
                }
            }
            if fuel == 0 {
                crate::validate::lemma_existing_distinct(objs, anc2);
            } else {
                assert forall|j: int| 0 <= j < anc2.len() implies v2.contains(#[trigger] anc2[j]) by {
                    if j < anc.len() {
                        assert(anc2[j] == anc[j]);
                        let w = choose|w: int| 0 <= w < visited.len() && visited[w] == anc[j];
                        assert(v2[w] == anc[j]);
                    } else {
                        assert(v2[visited.len() as int] == r);
                    }
                }
                let rs = refs_of(objs[i].1);
                law_reach_list_fuel(
                    objs,
                    rs,
                    v2,
                    depth + 1,
                    max,
                    config,
                    anc2,
                    (fuel - 1) as nat,
                    (more - 1) as nat,
                    rs.len(),
                );
            }
        }
    }
}

/// `law_reach_fuel` for the walk from the first `n` ids of a list.
pub proof fn law_reach_list_fuel(
    objs: Seq<(ObjRef, PdfValue)>,
    rs: Seq<ObjRef>,
    visited: Seq<ObjRef>,
    depth: nat,
    max: Option<usize>,
    config: DumpConfig,
    anc: Seq<ObjRef>,
    fuel: nat,
    more: nat,
    n: nat,
)
    requires
        anc.no_duplicates(),
        forall|i: int| 0 <= i < anc.len() ==> (#[trigger] lookup(objs, anc[i])) is Some,
        forall|i: int| 0 <= i < anc.len() ==> visited.contains(#[trigger] anc[i]),
        fuel + anc.len() >= objs.len(),
        fuel <= more,
    ensures
        reach_list(objs, rs, visited, depth, max, config, fuel, n) == reach_list(
            objs,
            rs,
            visited,
            depth,
            max,
            config,
            more,
            n,
        ),
    decreases fuel, 1nat, n,
{
    if n > 0 {
        law_reach_list_fuel(objs, rs, visited, depth, max, config, anc, fuel, more, (n - 1) as nat);
        let prev = reach_list(objs, rs, visited, depth, max, config, fuel, (n - 1) as nat);
        lemma_list_keeps_visited(objs, rs, visited, depth, max, config, fuel, (n - 1) as nat);
        assert forall|i: int| 0 <= i < anc.len() implies prev.1.contains(#[trigger] anc[i]) by {
            assert(visited.contains(anc[i]));
        }
        law_reach_fuel(objs, rs[n - 1], prev.1, depth, max, config, anc, fuel, more);
    }
}

} // verus!
