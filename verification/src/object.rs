//! Values as short text: a value on one line, an object's `/Type`, and the
//! summary shown for a reference followed.
use vstd::prelude::*;
use crate::model::{deref_from, deref_limit, entry_get, find_entry, find_object, get_object, lookup, objects_sorted, resolve_object, ObjRef, PdfDoc, PdfValue};
use crate::stream::{decode_stream, cow_bytes, get_filter_names, run_filters, spec_filter_names, PdfStream};
use crate::stream::{format_hex_dump, hex_dump_from, is_binary_stream, is_text_byte};
use crate::types::DumpConfig;
use crate::stream::{lossy_string, utf8_lossy};
use crate::textbuf::{dec, dec_int, join_with, push_dec, push_dec_i64, push_joined, push_line, push_str, views};
use crate::validate::key;

verus! {

/// A value on one line: scalars as written in a file (`null`, `true`,
/// numbers, `/Name`, `(text)`, `n g R`), an array's items in brackets, and
/// a dictionary or stream by its size.
pub open spec fn value_text(v: PdfValue) -> Seq<char>
    decreases v,
{
    match v {
        PdfValue::Null => "null"@,
        PdfValue::Boolean(b) => if b {
            "true"@
        } else {
            "false"@
        },
        PdfValue::Integer(i) => dec_int(i as int),
        PdfValue::Real(r) => r@,
        PdfValue::Name(n) => "/"@ + utf8_lossy(n@),
        PdfValue::Str(s) => "("@ + utf8_lossy(s@) + ")"@,
        PdfValue::Array(items) => "["@ + join_with(items_text(items@), " "@) + "]"@,
        PdfValue::Dictionary(es) => "<< "@ + dec(es@.len()) + " keys >>"@,
        PdfValue::Stream { dict, content } => "<< stream, "@ + dec(content@.len()) + " bytes >>"@,
        PdfValue::Reference(r) => dec(r.num as nat) + " "@ + dec(r.gen as nat) + " R"@,
    }
}

pub open spec fn items_text(items: Seq<PdfValue>) -> Seq<Seq<char>>
    decreases items,
{
    if items.len() == 0 {
        Seq::empty()
    } else {
        seq![value_text(items[0])] + items_text(items.subrange(1, items.len() as int))
    }
}

/// A value on one line (see `value_text`).
pub fn format_dict_value(v: &PdfValue) -> (r: String)
    ensures
        r@ == value_text(*v),
    decreases v,
{
    let mut s = String::new();
    match v {
        PdfValue::Null => push_str(&mut s, "null"),
        PdfValue::Boolean(b) => push_str(&mut s, if *b { "true" } else { "false" }),
        PdfValue::Integer(i) => push_dec_i64(&mut s, *i),
        PdfValue::Real(r) => push_str(&mut s, r.as_str()),
        PdfValue::Name(n) => {
            push_str(&mut s, "/");
            let t = lossy_string(n.as_slice());
            push_str(&mut s, t.as_str());
        },
        PdfValue::Str(b) => {
            push_str(&mut s, "(");
            let t = lossy_string(b.as_slice());
            push_str(&mut s, t.as_str());
            push_str(&mut s, ")");
        },
        PdfValue::Array(items) => {
            let mut parts: Vec<String> = Vec::new();
            let mut i: usize = 0;
            assert(items@.subrange(0, items@.len() as int) =~= items@);
            while i < items.len()
                invariant
                    i <= items@.len(),
                    *v == PdfValue::Array(*items),
                    views(parts@) + items_text(items@.subrange(i as int, items@.len() as int)) == items_text(items@),
                decreases items.len() - i,
            {
                let ghost rest = items@.subrange(i as int, items@.len() as int);
                assert(rest[0] == items@[i as int]);
                assert(rest.subrange(1, rest.len() as int) =~= items@.subrange(i + 1, items@.len() as int));
                proof {
                    assert(decreases_to!(*v => (*v)->Array_0));
                    assert(decreases_to!(*items => items@));
                    assert(decreases_to!(items@ => items@[i as int]));
                }
                let ghost before = views(parts@);
                let t = format_dict_value(&items[i]);
                push_line(&mut parts, t);
                assert(views(parts@) + items_text(items@.subrange(i + 1, items@.len() as int)) =~= before + items_text(
                    rest,
                ));
                i = i + 1;
            }
            assert(items@.subrange(i as int, items@.len() as int) =~= Seq::<PdfValue>::empty());
            assert(views(parts@) =~= items_text(items@));
            push_str(&mut s, "[");
            push_joined(&mut s, &parts, " ");
            push_str(&mut s, "]");
        },
        PdfValue::Dictionary(es) => {
            push_str(&mut s, "<< ");
            push_dec(&mut s, es.len() as u64);
            push_str(&mut s, " keys >>");
        },
        PdfValue::Stream { dict, content } => {
            push_str(&mut s, "<< stream, ");
            push_dec(&mut s, content.len() as u64);
            push_str(&mut s, " bytes >>");
        },
        PdfValue::Reference(r) => {
            push_dec(&mut s, r.num as u64);
            push_str(&mut s, " ");
            push_dec(&mut s, r.gen as u64);
            push_str(&mut s, " R");
        },
    }
    s
}

/// An object's `/Type` name, or `-`: what a dictionary or a stream's
/// dictionary names under `/Type`.
pub open spec fn type_label(v: PdfValue) -> Seq<char> {
    match v {
        PdfValue::Dictionary(es) => match entry_get(es@, key("Type"@)) {
            Some(PdfValue::Name(n)) => utf8_lossy(n@),
            _ => "-"@,
        },
        PdfValue::Stream { dict, content } => match entry_get(dict@, key("Type"@)) {
            Some(PdfValue::Name(n)) => utf8_lossy(n@),
            _ => "-"@,
        },
        _ => "-"@,
    }
}

/// An object's `/Type` name, or `-`.
pub fn object_type_label(v: &PdfValue) -> (r: String)
    ensures
        r@ == type_label(*v),
{
    let es = match v {
        PdfValue::Dictionary(es) => es,
        PdfValue::Stream { dict, content } => dict,
        _ => {
            let mut s = String::new();
            push_str(&mut s, "-");
            return s;
        },
    };
    match find_entry(es, "Type".as_bytes()) {
        Some(j) => match &es[j].1 {
            PdfValue::Name(n) => lossy_string(n.as_slice()),
            _ => {
                let mut s = String::new();
                push_str(&mut s, "-");
                s
            },
        },
        None => {
            let mut s = String::new();
            push_str(&mut s, "-");
            s
        },
    }
}

pub open spec fn with_type(tl: Seq<char>) -> Seq<Seq<char>> {
    if tl == "-"@ {
        Seq::empty()
    } else {
        seq!["/Type /"@ + tl]
    }
}

pub open spec fn keyed_value(es: Seq<(Vec<u8>, PdfValue)>, k: Seq<char>) -> Seq<Seq<char>> {
    match entry_get(es, key(k)) {
        Some(v) => seq!["/"@ + k + "="@ + value_text(v)],
        None => Seq::empty(),
    }
}

/// What a reference leads to, in a few words: a scalar's value, an array's
/// size, a stream's type, size and filter, or a dictionary's type, notable
/// entries and number of keys.
pub open spec fn summary_text(v: PdfValue) -> Seq<char> {
    match v {
        PdfValue::Array(items) => "["@ + dec(items@.len()) + " items]"@,
        PdfValue::Stream { dict, content } => {
            let parts = with_type(type_label(v)) + seq!["stream, "@ + dec(content@.len()) + " bytes"@] + match entry_get(
                dict@,
                key("Filter"@),
            ) {
                Some(PdfValue::Name(n)) => seq![utf8_lossy(n@)],
                _ => Seq::empty(),
            };
            "<< "@ + join_with(parts, ", "@) + " >>"@
        },
        PdfValue::Dictionary(es) => {
            let parts = with_type(type_label(v)) + keyed_value(es@, "BaseFont"@) + keyed_value(es@, "Subtype"@)
                + keyed_value(es@, "Count"@) + keyed_value(es@, "MediaBox"@);
            if parts.len() == 0 {
                "<< "@ + dec(es@.len()) + " keys >>"@
            } else {
                "<< "@ + join_with(parts, ", "@) + ", "@ + dec(es@.len()) + " keys >>"@
            }
        },
        _ => value_text(v),
    }
}

fn push_keyed(parts: &mut Vec<String>, es: &Vec<(Vec<u8>, PdfValue)>, k: &str)
    ensures
        views(final(parts)@) == views(old(parts)@) + keyed_value(es@, k@),
{
    match find_entry(es, k.as_bytes()) {
        Some(j) => {
            let mut s = String::new();
            push_str(&mut s, "/");
            push_str(&mut s, k);
            push_str(&mut s, "=");
            let t = format_dict_value(&es[j].1);
            push_str(&mut s, t.as_str());
            push_line(parts, s);
        },
        None => {
            assert(views(parts@) =~= views(old(parts)@) + keyed_value(es@, k@));
        },
    }
}

fn push_type(parts: &mut Vec<String>, v: &PdfValue)
    ensures
        views(final(parts)@) == views(old(parts)@) + with_type(type_label(*v)),
{
    let tl = object_type_label(v);
    proof {
        reveal_strlit("-");
    }
    if !crate::textbuf::str_eq(tl.as_str(), "-") {
        let mut s = String::new();
        push_str(&mut s, "/Type /");
        push_str(&mut s, tl.as_str());
        push_line(parts, s);
    } else {
        assert(views(parts@) =~= views(old(parts)@) + with_type(type_label(*v)));
    }
}

/// What a reference leads to, in a few words (see `summary_text`).
pub fn deref_summary(v: &PdfValue) -> (r: String)
    ensures
        r@ == summary_text(*v),
{
    match v {
        PdfValue::Array(items) => {
            let mut s = String::new();
            push_str(&mut s, "[");
            push_dec(&mut s, items.len() as u64);
            push_str(&mut s, " items]");
            s
        },
        PdfValue::Stream { dict, content } => {
            let mut parts: Vec<String> = Vec::new();
            assert(views(parts@) =~= Seq::<Seq<char>>::empty());
            push_type(&mut parts, v);
            let mut a = String::new();
            push_str(&mut a, "stream, ");
            push_dec(&mut a, content.len() as u64);
            push_str(&mut a, " bytes");
            push_line(&mut parts, a);
            match find_entry(dict, "Filter".as_bytes()) {
                Some(j) => match &dict[j].1 {
                    PdfValue::Name(n) => push_line(&mut parts, lossy_string(n.as_slice())),
                    _ => {},
                },
                None => {},
            }
            assert(views(parts@) =~= with_type(type_label(*v)) + seq!["stream, "@ + dec(content@.len()) + " bytes"@]
                + match entry_get(dict@, key("Filter"@)) {
                Some(PdfValue::Name(n)) => seq![utf8_lossy(n@)],
                _ => Seq::empty(),
            });
            let mut s = String::new();
            push_str(&mut s, "<< ");
            push_joined(&mut s, &parts, ", ");
            push_str(&mut s, " >>");
            s
        },
        PdfValue::Dictionary(es) => {
            let mut parts: Vec<String> = Vec::new();
            assert(views(parts@) =~= Seq::<Seq<char>>::empty());
            push_type(&mut parts, v);
            push_keyed(&mut parts, es, "BaseFont");
            push_keyed(&mut parts, es, "Subtype");
            push_keyed(&mut parts, es, "Count");
            push_keyed(&mut parts, es, "MediaBox");
            assert(views(parts@) =~= with_type(type_label(*v)) + keyed_value(es@, "BaseFont"@) + keyed_value(
                es@,
                "Subtype"@,
            ) + keyed_value(es@, "Count"@) + keyed_value(es@, "MediaBox"@));
            let mut s = String::new();
            push_str(&mut s, "<< ");
            if parts.len() > 0 {
                push_joined(&mut s, &parts, ", ");
                push_str(&mut s, ", ");
            }
            push_dec(&mut s, es.len() as u64);
            push_str(&mut s, " keys >>");
            s
        },
        _ => format_dict_value(v),
    }
}

/// An operation of a content stream on one line: its operands (each as
/// `value_text` gives it), then its operator, separated by spaces.
pub open spec fn operation_text(operator: Seq<char>, operands: Seq<PdfValue>) -> Seq<char> {
    join_with(items_text(operands) + seq![operator], " "@)
}

/// An operation of a content stream on one line (see `operation_text`).
pub fn format_operation(operator: &str, operands: &Vec<PdfValue>) -> (r: String)
    ensures
        r@ == operation_text(operator@, operands@),
{
    let mut parts: Vec<String> = Vec::new();
    let mut i: usize = 0;
    assert(operands@.subrange(0, operands@.len() as int) =~= operands@);
    while i < operands.len()
        invariant
            i <= operands@.len(),
            views(parts@) + items_text(operands@.subrange(i as int, operands@.len() as int)) == items_text(operands@),
        decreases operands.len() - i,
    {
        let ghost rest = operands@.subrange(i as int, operands@.len() as int);
        assert(rest[0] == operands@[i as int]);
        assert(rest.subrange(1, rest.len() as int) =~= operands@.subrange(i + 1, operands@.len() as int));
        let ghost before = views(parts@);
        let t = format_dict_value(&operands[i]);
        push_line(&mut parts, t);
        assert(views(parts@) + items_text(operands@.subrange(i + 1, operands@.len() as int)) =~= before + items_text(rest));
        i = i + 1;
    }
    assert(operands@.subrange(i as int, operands@.len() as int) =~= Seq::<PdfValue>::empty());
    let mut op = String::new();
    push_str(&mut op, operator);
    push_line(&mut parts, op);
    assert(views(parts@) =~= items_text(operands@) + seq![operator@]);
    let mut s = String::new();
    push_joined(&mut s, &parts, " ");
    s
}

pub open spec fn has_binary(content: Seq<u8>) -> bool {
    exists|i: int| 0 <= i < content.len() && !is_text_byte(#[trigger] content[i])
}

/// The part of the content shown: binary content cut to the limit.
pub open spec fn shown_part(content: Seq<u8>, truncate: Option<usize>, bin: bool) -> Seq<u8> {
    match truncate {
        Some(limit) => if bin && limit < content.len() {
            content.take(limit as int)
        } else {
            content
        },
        None => content,
    }
}

/// The size as shown, with the limit when binary content was cut.
pub open spec fn len_text(content: Seq<u8>, truncate: Option<usize>, bin: bool) -> Seq<char> {
    match truncate {
        Some(limit) => if content.len() > limit && bin {
            dec(content.len()) + " (truncated to "@ + dec(limit as nat) + ")"@
        } else {
            dec(content.len())
        },
        None => dec(content.len()),
    }
}

pub open spec fn body_text(shown: Seq<u8>, hex: bool, bin: bool) -> Seq<char> {
    if hex && bin {
        hex_dump_from(shown, 0) + "\n"@
    } else {
        "---\n"@ + utf8_lossy(shown) + "\n---\n"@
    }
}

/// The raw or hex view of stream content: binary content is cut to the
/// truncation limit, when there is one, and shown as a hex dump when asked.
pub open spec fn raw_view(content: Seq<u8>, description: Seq<char>, indent: Seq<char>, truncate: Option<usize>, hex: bool) -> Seq<
    char,
> {
    let bin = has_binary(content);
    "\n"@ + indent + "Stream content ("@ + description + ", "@ + len_text(content, truncate, bin) + " bytes):\n"@
        + body_text(shown_part(content, truncate, bin), hex, bin)
}

fn push_len_text(out: &mut String, full_len: usize, truncate: Option<usize>, bin: bool, Ghost(content): Ghost<Seq<u8>>)
    requires
        full_len == content.len(),
    ensures
        final(out)@ == old(out)@ + len_text(content, truncate, bin),
{
    push_dec(out, full_len as u64);
    match truncate {
        Some(limit) => {
            if full_len > limit && bin {
                push_str(out, " (truncated to ");
                push_dec(out, limit as u64);
                push_str(out, ")");
            }
        },
        None => {},
    }
}

fn push_body(out: &mut String, shown: &[u8], hex: bool, bin: bool)
    ensures
        final(out)@ == old(out)@ + body_text(shown@, hex, bin),
{
    if hex && bin {
        let h = format_hex_dump(shown);
        push_str(out, h.as_str());
        push_str(out, "\n");
    } else {
        push_str(out, "---\n");
        let t = lossy_string(shown);
        push_str(out, t.as_str());
        push_str(out, "\n---\n");
    }
}

pub open spec fn ops_text(indent: Seq<char>, ops: Seq<Seq<char>>) -> Seq<char>
    decreases ops.len(),
{
    if ops.len() == 0 {
        Seq::empty()
    } else {
        ops_text(indent, ops.drop_last()) + indent + "  "@ + ops.last() + "\n"@
    }
}

/// What is shown of a stream's content. `parsed` is, for a page content
/// stream, its operations as text or the parse error; `None` for other
/// streams.
pub open spec fn content_view(
    content: Seq<u8>,
    description: Seq<char>,
    indent: Seq<char>,
    truncate: Option<usize>,
    hex: bool,
    warning: Option<Seq<char>>,
    parsed: Option<Result<Seq<Seq<char>>, Seq<char>>>,
) -> Seq<char> {
    let warn = match warning {
        Some(w) => "\n"@ + indent + "[WARNING: "@ + w + "]\n"@,
        None => Seq::empty(),
    };
    match parsed {
        Some(Ok(ops)) => warn + "\n"@ + indent + "Parsed Content Stream ("@ + dec(ops.len()) + " operations):\n"@
            + ops_text(indent, ops),
        Some(Err(e)) => warn + "\n"@ + indent + "[Could not parse content stream: "@ + e
            + ". Falling back to raw view.]\n"@ + raw_view(content, description, indent, truncate, hex),
        None => warn + raw_view(content, description, indent, truncate, hex),
    }
}

pub open spec fn parsed_views(p: Option<&Result<Vec<String>, String>>) -> Option<Result<Seq<Seq<char>>, Seq<char>>> {
    match p {
        Some(Ok(v)) => Some(Ok(views(v@))),
        Some(Err(e)) => Some(Err(e@)),
        None => None,
    }
}

fn push_raw_view(out: &mut String, content: &[u8], description: &str, indent: &str, config: &DumpConfig)
    ensures
        final(out)@ == old(out)@ + raw_view(content@, description@, indent@, config.truncate, config.hex),
{
    let full_len = content.len();
    let bin = is_binary_stream(content);
    assert(bin == has_binary(content@));
    let shown: &[u8] = match config.truncate {
        Some(limit) => if bin && limit < full_len {
            vstd::slice::slice_subrange(content, 0, limit)
        } else {
            content
        },
        None => content,
    };
    assert(shown@ =~= shown_part(content@, config.truncate, bin));
    push_str(out, "\n");
    push_str(out, indent);
    push_str(out, "Stream content (");
    push_str(out, description);
    push_str(out, ", ");
    push_len_text(out, full_len, config.truncate, bin, Ghost(content@));
    push_str(out, " bytes):\n");
    push_body(out, shown, config.hex, bin);
}

/// What is shown of a stream's content: a decoding warning, then the
/// operations of a parsed page content stream, or else the content itself
/// as text or, for binary content when asked, as a hex dump (see
/// `content_view`).
pub fn print_content_data(
    content: &[u8],
    description: &str,
    indent: &str,
    config: &DumpConfig,
    warning: Option<&str>,
    parsed: Option<&Result<Vec<String>, String>>,
) -> (r: String)
    ensures
        r@ == content_view(
            content@,
            description@,
            indent@,
            config.truncate,
            config.hex,
            match warning {
                Some(w) => Some(w@),
                None => None,
            },
            parsed_views(parsed),
        ),
{
    let mut out = String::new();
    if let Some(w) = warning {
        push_str(&mut out, "\n");
        push_str(&mut out, indent);
        push_str(&mut out, "[WARNING: ");
        push_str(&mut out, w);
        push_str(&mut out, "]\n");
    }
    let ghost warn = out@;
    match parsed {
        Some(Ok(ops)) => {
            push_str(&mut out, "\n");
            push_str(&mut out, indent);
            push_str(&mut out, "Parsed Content Stream (");
            push_dec(&mut out, ops.len() as u64);
            push_str(&mut out, " operations):\n");
            let ghost head = out@;
            let ghost ov = views(ops@);
            let mut i: usize = 0;
            assert(out@ =~= head + ops_text(indent@, ov.take(0)));
            while i < ops.len()
                invariant
                    i <= ops@.len(),
                    ov == views(ops@),
                    out@ == head + ops_text(indent@, ov.take(i as int)),
                decreases ops.len() - i,
            {
                assert(ov.take(i + 1).drop_last() =~= ov.take(i as int));
                push_str(&mut out, indent);
                push_str(&mut out, "  ");
                push_str(&mut out, ops[i].as_str());
                push_str(&mut out, "\n");
                assert(out@ =~= head + ops_text(indent@, ov.take(i + 1)));
                i = i + 1;
            }
            assert(ov.take(ov.len() as int) =~= ov);
        },
        Some(Err(e)) => {
            push_str(&mut out, "\n");
            push_str(&mut out, indent);
            push_str(&mut out, "[Could not parse content stream: ");
            push_str(&mut out, e.as_str());
            push_str(&mut out, ". Falling back to raw view.]\n");
            push_raw_view(&mut out, content, description, indent, config);
        },
        None => {
            push_raw_view(&mut out, content, description, indent, config);
        },
    }
    out
}

// ── Lookup failures ──────────────────────────────────────────────────

/// Why following an id fails: an id with no object, or too many references
/// in a row.
pub enum LookupFailure {
    NotFound(ObjRef),
    Limit,
}

pub open spec fn failure_from(objs: Seq<(ObjRef, PdfValue)>, i: int, hops: nat) -> LookupFailure
    decreases deref_limit() + 1 - hops,
{
    if hops > deref_limit() || !(0 <= i < objs.len()) {
        LookupFailure::Limit
    } else {
        match objs[i].1 {
            PdfValue::Reference(t) => match lookup(objs, t) {
                None => LookupFailure::NotFound(t),
                Some(j) => if hops + 1 > deref_limit() {
                    LookupFailure::Limit
                } else {
                    failure_from(objs, j, hops + 1)
                },
            },
            _ => LookupFailure::Limit,
        }
    }
}

/// Why `get_object` finds nothing for `r`.
pub open spec fn lookup_failure(objs: Seq<(ObjRef, PdfValue)>, r: ObjRef) -> LookupFailure {
    match lookup(objs, r) {
        None => LookupFailure::NotFound(r),
        Some(i) => failure_from(objs, i, 0),
    }
}

pub open spec fn failure_text(f: LookupFailure) -> Seq<char> {
    match f {
        LookupFailure::NotFound(r) => "object ID "@ + dec(r.num as nat) + " "@ + dec(r.gen as nat) + " not found"@,
        LookupFailure::Limit => "dereferencing object reached limit, may indicate a reference cycle"@,
    }
}

/// The message of `lopdf::Error::ObjectNotFound`.
///
/// Trusted: formats the error with `Display`; its text is declared in the
/// crate's source as `object ID {} {} not found` with the number and the
/// generation.
#[verifier::external_body]
fn not_found_message(r: ObjRef) -> (s: String)
    ensures
        s@ == failure_text(LookupFailure::NotFound(r)),
{
    format!("{}", lopdf::Error::ObjectNotFound((r.num, r.gen)))
}

/// The message of `lopdf::Error::ReferenceLimit`.
///
/// Trusted: formats the error with `Display`; its text is declared in the
/// crate's source as a fixed sentence.
#[verifier::external_body]
fn limit_message(r: ObjRef) -> (s: String)
    ensures
        s@ == failure_text(LookupFailure::Limit),
{
    format!("{}", lopdf::Error::ReferenceLimit)
}

/// The error message for an id that `get_object` cannot follow.
pub fn lookup_error(doc: &PdfDoc, r: ObjRef) -> (s: String)
    requires
        objects_sorted(doc.objects@),
    ensures
        s@ == failure_text(lookup_failure(doc.objects@, r)),
{
    let objs = &doc.objects;
    let mut i = match find_object(objs, r) {
        None => {
            return not_found_message(r);
        },
        Some(i) => i,
    };
    let mut hops: usize = 0;
    loop
        invariant
            objects_sorted(objs@),
            i < objs@.len(),
            hops <= deref_limit(),
            objs@ == doc.objects@,
            lookup_failure(objs@, r) == failure_from(objs@, i as int, hops as nat),
        decreases deref_limit() - hops,
    {
        match &objs[i].1 {
            PdfValue::Reference(t) => {
                match find_object(objs, *t) {
                    None => {
                        return not_found_message(*t);
                    },
                    Some(j) => {
                        if hops + 1 > 128 {
                            return limit_message(r);
                        }
                        i = j;
                        hops = hops + 1;
                    },
                }
            },
            _ => {
                return limit_message(r);
            },
        }
    }
}

} // verus!
