//! Per-page facts: whether extracted text is usable, the text preview, and
//! the base font names a page uses.
use vstd::prelude::*;
use crate::textbuf::{
    all_ws, chars_contain, chars_start_with, contains_seq, dec, dec_int, find_char, find_first,
    is_whitespace_char, is_ws, join_with, pad_right, push_chars, push_dec, push_dec_i64, push_dec_u128,
    push_joined, push_line, push_padded_right, push_str, starts_with_seq, str_chars, trim, trim_bounds,
    views,
};
use crate::counts::{tally_keys, tally_of, tally_views, Tally};
use crate::model::{entry_get, find_entry, get_object, objects_sorted, resolve_object, ObjRef, PdfDoc, PdfValue};
use crate::object::{format_dict_value, value_text};
use crate::resources::{category, collect_page_resources, entry_views, page_resources, EntrySpec, PageResources, ResKind, ResourceEntry};
use crate::validate::{key, plain_dict, plain_dict_at};

verus! {

/// What `str::to_lowercase` gives for a text: the Unicode lower-case
/// mapping of each character.
pub uninterp spec fn lowercase(s: Seq<char>) -> Seq<char>;

/// `str::to_lowercase`. Its result is the Unicode lower-case mapping of the
/// text, which depends on the text alone; the contract names it and says no
/// more.
#[verifier::external_body]
pub(crate) fn to_lower(s: &str) -> (r: String)
    ensures
        r@ == lowercase(s@),
{
    s.to_lowercase()
}

/// A lower-cased warning that speaks of CIDs, encodings or ToUnicode maps:
/// fonts whose text cannot be mapped to Unicode.
pub open spec fn mentions_font_problem(lower: Seq<char>) -> bool {
    contains_seq(lower, "cid"@) || contains_seq(lower, "encoding"@) || contains_seq(
        lower,
        "tounicode"@,
    )
}

/// Whether a lower-cased warning speaks of a font mapping problem.
pub fn warning_mentions_font_problem(lowered: &str) -> (r: bool)
    ensures
        r == mentions_font_problem(lowered@),
{
    let text = str_chars(lowered);
    let cid = str_chars("cid");
    let encoding = str_chars("encoding");
    let tounicode = str_chars("tounicode");
    chars_contain(&text, &cid) || chars_contain(&text, &encoding) || chars_contain(&text, &tounicode)
}

/// A printable ASCII character, `' '` to `'~'`.
pub open spec fn is_printable_ascii(c: char) -> bool {
    ' ' <= c && c <= '~'
}

/// The number of characters of `s` that are not white space.
pub open spec fn non_ws_count(s: Seq<char>) -> nat
    decreases s.len(),
{
    if s.len() == 0 {
        0
    } else {
        non_ws_count(s.drop_last()) + if !is_ws(s.last()) { 1nat } else { 0nat }
    }
}

/// The number of characters of `s` that are neither white space nor
/// printable ASCII.
pub open spec fn unprintable_count(s: Seq<char>) -> nat
    decreases s.len(),
{
    if s.len() == 0 {
        0
    } else {
        unprintable_count(s.drop_last()) + if !is_ws(s.last()) && !is_printable_ascii(s.last()) {
            1nat
        } else {
            0nat
        }
    }
}

/// More than half of the characters that are not white space fall outside
/// printable ASCII.
pub open spec fn garbled_by_ratio(s: Seq<char>) -> bool {
    non_ws_count(s) > 0 && 2 * unprintable_count(s) > non_ws_count(s)
}

/// Text reads as garbled when it is not blank and a (lower-cased) warning
/// speaks of a font mapping problem, or when most of its visible characters
/// are not printable ASCII.
pub open spec fn garbled(text: Seq<char>, lowered: Seq<Seq<char>>) -> bool {
    ||| (exists|i: int| 0 <= i < lowered.len() && mentions_font_problem(#[trigger] lowered[i]))
        && !all_ws(text)
    ||| garbled_by_ratio(text)
}

/// The lower-cased text of each warning.
pub open spec fn lowered_all(warnings: Seq<String>) -> Seq<Seq<char>> {
    warnings.map_values(|w: String| lowercase(w@))
}

fn counts(v: &Vec<char>) -> (r: (usize, usize))
    ensures
        r.0 == non_ws_count(v@),
        r.1 == unprintable_count(v@),
        r.1 <= r.0,
{
    let mut visible: usize = 0;
    let mut odd: usize = 0;
    let mut i: usize = 0;
    while i < v.len()
        invariant
            i <= v@.len(),
            visible == non_ws_count(v@.take(i as int)),
            odd == unprintable_count(v@.take(i as int)),
            visible <= i,
            odd <= visible,
        decreases v.len() - i,
    {
        let c = v[i];
        assert(v@.take(i + 1).drop_last() =~= v@.take(i as int));
        assert(v@.take(i + 1).last() == c);
        if !is_whitespace_char(c) {
            visible = visible + 1;
            if !(' ' <= c && c <= '~') {
                odd = odd + 1;
            }
        }
        i = i + 1;
    }
    assert(v@.take(v@.len() as int) =~= v@);
    (visible, odd)
}

/// Whether extracted text looks garbled or not extractable, given the
/// warnings that came with it.
pub fn is_garbled_text(text: &str, warnings: &[String]) -> (r: bool)
    ensures
        r == garbled(text@, lowered_all(warnings@)),
{
    let chars = str_chars(text);
    let mut blank = true;
    let mut k: usize = 0;
    while k < chars.len()
        invariant
            k <= chars@.len(),
            blank == (forall|j: int| 0 <= j < k ==> is_ws(#[trigger] chars@[j])),
        decreases chars.len() - k,
    {
        if !is_whitespace_char(chars[k]) {
            blank = false;
        }
        k = k + 1;
    }
    assert(blank == all_ws(text@));
    let ghost lowered = lowered_all(warnings@);
    let mut i: usize = 0;
    while i < warnings.len()
        invariant
            i <= warnings@.len(),
            lowered == lowered_all(warnings@),
            blank == all_ws(text@),
            !blank ==> forall|j: int| 0 <= j < i ==> !mentions_font_problem(#[trigger] lowered[j]),
        decreases warnings.len() - i,
    {
        let lower = to_lower(warnings[i].as_str());
        if warning_mentions_font_problem(lower.as_str()) && !blank {
            assert(mentions_font_problem(lowered[i as int]));
            return true;
        }
        i = i + 1;
    }
    let (visible, odd) = counts(&chars);
    if visible == 0 {
        return false;
    }
    odd > visible - odd
}

/// The number of bytes a character takes in UTF-8.
pub open spec fn utf8_width(c: char) -> nat {
    if (c as u32) < 0x80 {
        1
    } else if (c as u32) < 0x800 {
        2
    } else if (c as u32) < 0x10000 {
        3
    } else {
        4
    }
}

/// The number of bytes of `s` in UTF-8 (as `str::len`).
pub open spec fn utf8_len(s: Seq<char>) -> nat
    decreases s.len(),
{
    if s.len() == 0 {
        0
    } else {
        utf8_len(s.drop_last()) + utf8_width(s.last())
    }
}

proof fn lemma_utf8_len_mono(s: Seq<char>, i: int, j: int)
    requires
        0 <= i <= j <= s.len(),
    ensures
        utf8_len(s.take(i)) <= utf8_len(s.take(j)),
    decreases j - i,
{
    if i < j {
        lemma_utf8_len_mono(s, i, j - 1);
        assert(s.take(j).drop_last() =~= s.take(j - 1));
    }
}

/// Whether `v` takes more than `limit` bytes in UTF-8.
fn utf8_longer_than(v: &Vec<char>, limit: usize) -> (r: bool)
    ensures
        r == (utf8_len(v@) > limit),
{
    let mut total: usize = 0;
    let mut i: usize = 0;
    while i < v.len()
        invariant
            i <= v@.len(),
            total == utf8_len(v@.take(i as int)),
            total <= limit,
        decreases v.len() - i,
    {
        let c = v[i];
        let w: usize = if (c as u32) < 0x80 {
            1
        } else if (c as u32) < 0x800 {
            2
        } else if (c as u32) < 0x10000 {
            3
        } else {
            4
        };
        assert(v@.take(i + 1).drop_last() =~= v@.take(i as int));
        if w > limit - total {
            proof {
                lemma_utf8_len_mono(v@, i + 1, v@.len() as int);
                assert(v@.take(v@.len() as int) =~= v@);
            }
            return true;
        }
        total = total + w;
        i = i + 1;
    }
    assert(v@.take(v@.len() as int) =~= v@);
    false
}

/// The note shown in place of text that cannot be extracted.
pub open spec fn not_extractable_note() -> Seq<char> {
    "(text not extractable \u{2014} fonts lack Unicode mappings)"@
}

/// The preview of a page's text and whether the text is extractable:
/// garbled text is replaced by a note; text longer than 200 bytes is cut to
/// its first 200 characters, trimmed and followed by `...`; shorter text is
/// trimmed.
pub open spec fn preview_of(text: Seq<char>, is_garbled: bool) -> (Seq<char>, bool) {
    if is_garbled {
        (not_extractable_note(), false)
    } else if utf8_len(text) > 200 {
        (trim(text.take(if text.len() < 200 { text.len() as int } else { 200 })) + "..."@, true)
    } else {
        (trim(text), true)
    }
}

pub fn text_preview(text: &str, is_garbled: bool) -> (r: (String, bool))
    ensures
        r.0@ == preview_of(text@, is_garbled).0,
        r.1 == preview_of(text@, is_garbled).1,
{
    let mut out = String::new();
    if is_garbled {
        push_str(&mut out, "(text not extractable \u{2014} fonts lack Unicode mappings)");
        return (out, false);
    }
    let chars = str_chars(text);
    if utf8_longer_than(&chars, 200) {
        let n = if chars.len() < 200 { chars.len() } else { 200 };
        let (a, b) = trim_bounds(&chars, 0, n);
        push_chars(&mut out, &chars, a, b);
        push_str(&mut out, "...");
        assert(chars@.subrange(0, n as int) =~= text@.take(n as int));
    } else {
        let (a, b) = trim_bounds(&chars, 0, chars.len());
        push_chars(&mut out, &chars, a, b);
        assert(chars@.subrange(0, chars@.len() as int) =~= text@);
    }
    (out, true)
}

/// The text before the first `c` in `s`, or all of `s` (the first piece of
/// `str::split`).
pub open spec fn first_piece(s: Seq<char>, c: char) -> Seq<char> {
    match find_first(s, c) {
        Some(i) => s.take(i),
        None => s,
    }
}

/// The base font name in a font's description, such as `Helvetica` in
/// `Helvetica, Type1`: the text before the first comma, trimmed.
pub fn base_font_name(detail: &str) -> (r: String)
    ensures
        r@ == trim(first_piece(detail@, ',')),
{
    let chars = str_chars(detail);
    let end = match find_char(&chars, 0, chars.len(), ',') {
        Some(i) => i,
        None => chars.len(),
    };
    proof {
        crate::textbuf::lemma_find_first(chars@, ',');
        assert(chars@.subrange(0, chars@.len() as int) =~= chars@);
        assert(chars@.subrange(0, end as int) =~= first_piece(detail@, ','));
    }
    let (a, b) = trim_bounds(&chars, 0, end);
    let mut out = String::new();
    push_chars(&mut out, &chars, a, b);
    out
}

/// Blank text is never garbled, whatever the warnings say.
pub proof fn law_blank_text_is_not_garbled(text: Seq<char>, lowered: Seq<Seq<char>>)
    requires
        all_ws(text),
    ensures
        !garbled(text, lowered),
        non_ws_count(text) == 0,
    decreases text.len(),
{
    if text.len() > 0 {
        assert(all_ws(text.drop_last()));
        law_blank_text_is_not_garbled(text.drop_last(), lowered);
    }
}

/// Without warnings, text in printable ASCII and white space is never
/// garbled.
pub proof fn law_ascii_text_is_not_garbled(text: Seq<char>)
    requires
        forall|i: int| 0 <= i < text.len() ==> is_ws(#[trigger] text[i]) || is_printable_ascii(text[i]),
    ensures
        !garbled(text, Seq::empty()),
        unprintable_count(text) == 0,
    decreases text.len(),
{
    if text.len() > 0 {
        let rest = text.drop_last();
        assert forall|i: int| 0 <= i < rest.len() implies is_ws(#[trigger] rest[i]) || is_printable_ascii(rest[i]) by {
            assert(rest[i] == text[i]);
        }
        law_ascii_text_is_not_garbled(rest);
        assert(is_ws(text[text.len() - 1]) || is_printable_ascii(text[text.len() - 1]));
    }
}

/// What a page shows in the page report.
pub struct PageInfo {
    pub page_num: u32,
    pub object_id: ObjRef,
    pub media_box: String,
    pub crop_box: Option<String>,
    pub rotate: Option<i64>,
    pub font_names: Vec<String>,
    pub image_count: usize,
    pub ext_gstate_count: usize,
    pub annotation_count: usize,
    /// Annotations by subtype, subtypes in ascending order.
    pub annotation_subtypes: Vec<(String, usize)>,
    pub content_stream_count: usize,
    pub content_stream_bytes: u128,
    pub text_preview: String,
    pub text_extractable: bool,
    pub full_text: String,
    pub warnings: Vec<String>,
    pub resources: PageResources,
}

/// The content streams a page names: a single reference, or the references
/// in an array.
pub open spec fn content_ids(page: Seq<(Vec<u8>, PdfValue)>) -> Seq<ObjRef> {
    match entry_get(page, key("Contents"@)) {
        Some(PdfValue::Reference(r)) => seq![r],
        Some(PdfValue::Array(items)) => array_refs(items@),
        _ => Seq::empty(),
    }
}

pub open spec fn array_refs(items: Seq<PdfValue>) -> Seq<ObjRef>
    decreases items.len(),
{
    if items.len() == 0 {
        Seq::empty()
    } else {
        array_refs(items.drop_last()) + match items.last() {
            PdfValue::Reference(r) => seq![r],
            _ => Seq::empty(),
        }
    }
}

/// The raw bytes of those of `ids` that are streams.
pub open spec fn content_bytes(objs: Seq<(ObjRef, PdfValue)>, ids: Seq<ObjRef>) -> nat
    decreases ids.len(),
{
    if ids.len() == 0 {
        0
    } else {
        content_bytes(objs, ids.drop_last()) + match get_object(objs, ids.last()) {
            Some(i) => match objs[i].1 {
                PdfValue::Stream { dict, content } => content@.len(),
                _ => 0,
            },
            None => 0,
        }
    }
}

/// How many of the entries' descriptions start with `Image`.
pub open spec fn image_count_of(es: Seq<EntrySpec>) -> nat
    decreases es.len(),
{
    if es.len() == 0 {
        0
    } else {
        image_count_of(es.drop_last()) + if starts_with_seq(es.last().2, "Image"@) {
            1nat
        } else {
            0nat
        }
    }
}

fn contents_of(page: &Vec<(Vec<u8>, PdfValue)>) -> (r: Vec<ObjRef>)
    ensures
        r@ == content_ids(page@),
{
    let mut out: Vec<ObjRef> = Vec::new();
    match find_entry(page, "Contents".as_bytes()) {
        Some(j) => match &page[j].1 {
            PdfValue::Reference(r) => {
                out.push(*r);
                assert(out@ =~= content_ids(page@));
            },
            PdfValue::Array(items) => {
                let mut i: usize = 0;
                assert(out@ =~= array_refs(items@.take(0)));
                while i < items.len()
                    invariant
                        i <= items@.len(),
                        out@ == array_refs(items@.take(i as int)),
                    decreases items.len() - i,
                {
                    assert(items@.take(i + 1).drop_last() =~= items@.take(i as int));
                    if let PdfValue::Reference(r) = &items[i] {
                        out.push(*r);
                    }
                    assert(out@ =~= array_refs(items@.take(i + 1)));
                    i = i + 1;
                }
                assert(items@.take(items@.len() as int) =~= items@);
            },
            _ => {},
        },
        None => {},
    }
    out
}

fn bytes_of_contents(objs: &Vec<(ObjRef, PdfValue)>, ids: &Vec<ObjRef>) -> (r: u128)
    requires
        objects_sorted(objs@),
    ensures
        r == content_bytes(objs@, ids@),
{
    let mut total: u128 = 0;
    let mut i: usize = 0;
    assert(ids@.take(0) =~= Seq::<ObjRef>::empty());
    while i < ids.len()
        invariant
            objects_sorted(objs@),
            i <= ids@.len(),
            total == content_bytes(objs@, ids@.take(i as int)),
            total <= i * (usize::MAX as int),
        decreases ids.len() - i,
    {
        assert(ids@.take(i + 1).drop_last() =~= ids@.take(i as int));
        let add: usize = match resolve_object(objs, ids[i]) {
            Some(k) => match &objs[k].1 {
                PdfValue::Stream { dict, content } => content.len(),
                _ => 0,
            },
            None => 0,
        };
        assert(total + add <= (i + 1) * (usize::MAX as int)) by (nonlinear_arith)
            requires
                total <= i * (usize::MAX as int),
                add <= usize::MAX,
        ;
        assert((i + 1) * (usize::MAX as int) <= u128::MAX) by (nonlinear_arith)
            requires
                i < usize::MAX,
                usize::MAX <= 0xffff_ffff_ffff_ffff,
        ;
        total = total + add as u128;
        i = i + 1;
    }
    assert(ids@.take(ids@.len() as int) =~= ids@);
    total
}

fn count_images(xs: &Vec<ResourceEntry>) -> (c: usize)
    ensures
        c == image_count_of(entry_views(xs@)),
{
    let ghost ev = entry_views(xs@);
    let image = str_chars("Image");
    let mut c: usize = 0;
    let mut i: usize = 0;
    while i < xs.len()
        invariant
            i <= xs@.len(),
            ev == entry_views(xs@),
            image@ == "Image"@,
            c == image_count_of(ev.take(i as int)),
            c <= i,
        decreases xs.len() - i,
    {
        assert(ev.take(i + 1).drop_last() =~= ev.take(i as int));
        let d = str_chars(xs[i].detail.as_str());
        if chars_start_with(&d, &image) {
            c = c + 1;
        }
        i = i + 1;
    }
    assert(ev.take(ev.len() as int) =~= ev);
    c
}

/// The facts of one page. `annotation_subtypes` lists the subtypes of the
/// page's annotations; `text` and `warnings` are what text extraction gave
/// for the page.
pub fn collect_page_info(
    doc: &PdfDoc,
    page_num: u32,
    page_id: ObjRef,
    annotation_subtypes: &Vec<String>,
    text: &str,
    warnings: &Vec<String>,
) -> (r: PageInfo)
    requires
        objects_sorted(doc.objects@),
    ensures
        r.page_num == page_num,
        r.object_id == page_id,
        match plain_dict_at(doc.objects@, page_id) {
            None => {
                &&& r.media_box@ == "-"@
                &&& r.crop_box is None
                &&& r.rotate is None
                &&& r.font_names@.len() == 0
                &&& r.image_count == 0 && r.ext_gstate_count == 0 && r.annotation_count == 0
                &&& r.annotation_subtypes@.len() == 0
                &&& r.content_stream_count == 0 && r.content_stream_bytes == 0
                &&& r.text_preview@.len() == 0 && r.text_extractable
                &&& r.full_text@.len() == 0 && r.warnings@.len() == 0
                &&& r.resources.fonts@.len() == 0 && r.resources.xobjects@.len() == 0
                &&& r.resources.ext_gstate@.len() == 0 && r.resources.color_spaces@.len() == 0
            },
            Some(page) => {
                let objs = doc.objects@;
                let res = page_resources(objs, page_id);
                let fonts = category(objs, res, ResKind::Font, "Font"@);
                let xobjects = category(objs, res, ResKind::XObject, "XObject"@);
                let ids = content_ids(page);
                let g = garbled(text@, lowered_all(warnings@));
                &&& r.media_box@ == match entry_get(page, key("MediaBox"@)) {
                    Some(v) => value_text(v),
                    None => "-"@,
                }
                &&& match entry_get(page, key("CropBox"@)) {
                    Some(v) => r.crop_box is Some && r.crop_box->0@ == value_text(v),
                    None => r.crop_box is None,
                }
                &&& r.rotate == match entry_get(page, key("Rotate"@)) {
                    Some(PdfValue::Integer(i)) => Some(i),
                    _ => None,
                }
                &&& entry_views(r.resources.fonts@) == fonts
                &&& entry_views(r.resources.xobjects@) == xobjects
                &&& entry_views(r.resources.ext_gstate@) == category(objs, res, ResKind::ExtGState, "ExtGState"@)
                &&& entry_views(r.resources.color_spaces@) == category(objs, res, ResKind::ColorSpace, "ColorSpace"@)
                &&& views(r.font_names@) == fonts.map_values(|e: EntrySpec| trim(first_piece(e.2, ',')))
                &&& r.image_count == image_count_of(xobjects)
                &&& r.ext_gstate_count == category(objs, res, ResKind::ExtGState, "ExtGState"@).len()
                &&& r.annotation_count == annotation_subtypes@.len()
                &&& tally_views(r.annotation_subtypes@) == tally_of(views(annotation_subtypes@))
                &&& r.content_stream_count == ids.len()
                &&& r.content_stream_bytes == content_bytes(objs, ids)
                &&& r.text_preview@ == preview_of(text@, g).0
                &&& r.text_extractable == preview_of(text@, g).1
                &&& r.full_text@ == text@
                &&& views(r.warnings@) == views(warnings@)
            },
        },
{
    let objs = &doc.objects;
    let page = match plain_dict(objs, page_id) {
        Some(p) => p,
        None => {
            let mut mb = String::new();
            push_str(&mut mb, "-");
            return PageInfo {
                page_num,
                object_id: page_id,
                media_box: mb,
                crop_box: None,
                rotate: None,
                font_names: Vec::new(),
                image_count: 0,
                ext_gstate_count: 0,
                annotation_count: 0,
                annotation_subtypes: Vec::new(),
                content_stream_count: 0,
                content_stream_bytes: 0,
                text_preview: String::new(),
                text_extractable: true,
                full_text: String::new(),
                warnings: Vec::new(),
                resources: PageResources {
                    fonts: Vec::new(),
                    xobjects: Vec::new(),
                    ext_gstate: Vec::new(),
                    color_spaces: Vec::new(),
                },
            };
        },
    };
    let media_box = match find_entry(page, "MediaBox".as_bytes()) {
        Some(j) => format_dict_value(&page[j].1),
        None => {
            let mut mb = String::new();
            push_str(&mut mb, "-");
            mb
        },
    };
    let crop_box = match find_entry(page, "CropBox".as_bytes()) {
        Some(j) => Some(format_dict_value(&page[j].1)),
        None => None,
    };
    let rotate = match find_entry(page, "Rotate".as_bytes()) {
        Some(j) => match &page[j].1 {
            PdfValue::Integer(i) => Some(*i),
            _ => None,
        },
        None => None,
    };
    let res = collect_page_resources(doc, page_id);
    let ghost fv = entry_views(res.fonts@);
    let mut font_names: Vec<String> = Vec::new();
    let mut i: usize = 0;
    while i < res.fonts.len()
        invariant
            i <= res.fonts@.len(),
            fv == entry_views(res.fonts@),
            views(font_names@) == fv.take(i as int).map_values(|e: EntrySpec| trim(first_piece(e.2, ','))),
        decreases res.fonts.len() - i,
    {
        push_line(&mut font_names, base_font_name(res.fonts[i].detail.as_str()));
        assert(fv.take(i + 1).map_values(|e: EntrySpec| trim(first_piece(e.2, ','))) =~= fv.take(i as int).map_values(
            |e: EntrySpec| trim(first_piece(e.2, ',')),
        ).push(trim(first_piece(fv[i as int].2, ','))));
        i = i + 1;
    }
    assert(fv.take(fv.len() as int) =~= fv);
    let image_count = count_images(&res.xobjects);
    let ext_gstate_count = res.ext_gstate.len();
    let subtypes = tally_keys(annotation_subtypes);
    assert(annotation_subtypes@.map_values(|s: String| s@) =~= views(annotation_subtypes@));
    let ids = contents_of(page);
    let bytes = bytes_of_contents(objs, &ids);
    let g = is_garbled_text(text, warnings.as_slice());
    let (preview, extractable) = text_preview(text, g);
    let mut full = String::new();
    push_str(&mut full, text);
    let mut ws: Vec<String> = Vec::new();
    let mut k: usize = 0;
    while k < warnings.len()
        invariant
            k <= warnings@.len(),
            views(ws@) == views(warnings@).take(k as int),
        decreases warnings.len() - k,
    {
        push_line(&mut ws, warnings[k].clone());
        assert(views(warnings@).take(k + 1) =~= views(warnings@).take(k as int).push(warnings@[k as int]@));
        k = k + 1;
    }
    assert(views(warnings@).take(warnings@.len() as int) =~= views(warnings@));
    PageInfo {
        page_num,
        object_id: page_id,
        media_box,
        crop_box,
        rotate,
        font_names,
        image_count,
        ext_gstate_count,
        annotation_count: annotation_subtypes.len(),
        annotation_subtypes: subtypes,
        content_stream_count: ids.len(),
        content_stream_bytes: bytes,
        text_preview: preview,
        text_extractable: extractable,
        full_text: full,
        warnings: ws,
        resources: res,
    }
}

pub open spec fn obj_text(id: Option<ObjRef>) -> Seq<char> {
    match id {
        Some(r) => "obj "@ + dec(r.num as nat),
        None => "inline"@,
    }
}

/// A font, external object or graphics state line.
pub open spec fn resource_line(e: EntrySpec) -> Seq<char> {
    "    "@ + pad_right(e.0, 12) + " -> "@ + obj_text(e.1) + " ("@ + e.2 + ")"@
}

/// A color space line.
pub open spec fn space_line(e: EntrySpec) -> Seq<char> {
    match e.1 {
        Some(r) => "    "@ + pad_right(e.0, 12) + " -> obj "@ + dec(r.num as nat) + " ("@ + e.2 + ")"@,
        None => "    "@ + pad_right(e.0, 12) + " -> "@ + e.2,
    }
}

pub open spec fn plural(n: nat, word: Seq<char>) -> Seq<char> {
    dec(n) + " "@ + word + if n == 1 {
        Seq::<char>::empty()
    } else {
        "s"@
    }
}

pub open spec fn xobject_kinds(xs: Seq<EntrySpec>) -> Seq<Seq<char>> {
    let images = image_count_of(xs);
    let forms = (xs.len() - images) as nat;
    (if images > 0 {
        seq![plural(images, "image"@)]
    } else {
        Seq::empty()
    }) + (if forms > 0 {
        seq![plural(forms, "form"@)]
    } else {
        Seq::empty()
    })
}

pub open spec fn section(head: Seq<char>, es: Seq<EntrySpec>, line: spec_fn(EntrySpec) -> Seq<char>) -> Seq<Seq<char>> {
    if es.len() == 0 {
        Seq::empty()
    } else {
        seq![head] + es.map_values(line)
    }
}

pub open spec fn page_head(info: PageInfo) -> Seq<Seq<char>> {
    seq![
        "Page "@ + dec(info.page_num as nat) + " (Object "@ + dec(info.object_id.num as nat) + " "@ + dec(
            info.object_id.gen as nat,
        ) + ")"@,
        "  MediaBox:     "@ + info.media_box@,
    ] + (match info.crop_box {
        Some(c) => seq!["  CropBox:      "@ + c@],
        None => Seq::empty(),
    }) + (match info.rotate {
        Some(r) => seq!["  Rotate:       "@ + dec_int(r as int)],
        None => Seq::empty(),
    })
}

pub open spec fn resources_part(res: PageResources) -> Seq<Seq<char>> {
    let fonts = entry_views(res.fonts@);
    let xs = entry_views(res.xobjects@);
    let gs = entry_views(res.ext_gstate@);
    let cs = entry_views(res.color_spaces@);
    section("  Fonts:        "@ + dec(fonts.len()), fonts, |e: EntrySpec| resource_line(e)) + section(
        "  XObjects:     "@ + dec(xs.len()) + " ("@ + join_with(xobject_kinds(xs), ", "@) + ")"@,
        xs,
        |e: EntrySpec| resource_line(e),
    ) + section("  ExtGState:    "@ + dec(gs.len()), gs, |e: EntrySpec| resource_line(e)) + section(
        "  ColorSpaces:  "@ + dec(cs.len()),
        cs,
        |e: EntrySpec| space_line(e),
    )
}

pub open spec fn annotations_part(info: PageInfo) -> Seq<Seq<char>> {
    if info.annotation_count > 0 {
        seq![
            "  Annotations:  "@ + dec(info.annotation_count as nat) + " ("@ + join_with(
                tally_views(info.annotation_subtypes@).map_values(|e: (Seq<char>, nat)| dec(e.1) + " "@ + e.0),
                ", "@,
            ) + ")"@,
        ]
    } else {
        Seq::empty()
    }
}

pub open spec fn tail_part(info: PageInfo) -> Seq<Seq<char>> {
    (if info.content_stream_count > 0 {
        seq![
            "  Content:      "@ + dec(info.content_stream_count as nat) + " stream"@ + (if info.content_stream_count
                == 1 {
                Seq::<char>::empty()
            } else {
                "s"@
            }) + ", "@ + dec(info.content_stream_bytes as nat) + " bytes"@,
        ]
    } else {
        Seq::empty()
    }) + (if info.text_preview@.len() == 0 {
        Seq::empty()
    } else if info.text_extractable {
        seq!["  Text preview: "@ + "\""@ + info.text_preview@ + "\""@]
    } else {
        seq!["  Text preview: "@ + info.text_preview@]
    }) + views(info.warnings@).map_values(|w: Seq<char>| "  Warning: "@ + w) + seq![Seq::empty()]
}

/// The report of one page, line by line (ending with a blank line).
pub open spec fn page_report(info: PageInfo) -> Seq<Seq<char>> {
    page_head(info) + resources_part(info.resources) + annotations_part(info) + tail_part(info)
}

fn push_section(
    lines: &mut Vec<String>,
    head: String,
    es: &Vec<ResourceEntry>,
    spaces: bool,
)
    ensures
        views(final(lines)@) == views(old(lines)@) + section(
            head@,
            entry_views(es@),
            if spaces {
                |e: EntrySpec| space_line(e)
            } else {
                |e: EntrySpec| resource_line(e)
            },
        ),
{
    let ghost f = if spaces {
        |e: EntrySpec| space_line(e)
    } else {
        |e: EntrySpec| resource_line(e)
    };
    let ghost ev = entry_views(es@);
    if es.len() == 0 {
        assert(views(lines@) =~= views(old(lines)@) + section(head@, ev, f));
        return;
    }
    push_line(lines, head);
    let ghost base = views(lines@);
    let mut i: usize = 0;
    assert(views(lines@) =~= base + ev.take(0).map_values(f));
    while i < es.len()
        invariant
            i <= es@.len(),
            ev == entry_views(es@),
            f == (if spaces {
                |e: EntrySpec| space_line(e)
            } else {
                |e: EntrySpec| resource_line(e)
            }),
            views(lines@) == base + ev.take(i as int).map_values(f),
        decreases es.len() - i,
    {
        let e = &es[i];
        let mut s = String::new();
        push_str(&mut s, "    ");
        push_padded_right(&mut s, e.name.as_str(), 12);
        if spaces {
            match e.object_id {
                Some(r) => {
                    push_str(&mut s, " -> obj ");
                    push_dec(&mut s, r.num as u64);
                    push_str(&mut s, " (");
                    push_str(&mut s, e.detail.as_str());
                    push_str(&mut s, ")");
                },
                None => {
                    push_str(&mut s, " -> ");
                    push_str(&mut s, e.detail.as_str());
                },
            }
        } else {
            push_str(&mut s, " -> ");
            match e.object_id {
                Some(r) => {
                    push_str(&mut s, "obj ");
                    push_dec(&mut s, r.num as u64);
                },
                None => push_str(&mut s, "inline"),
            }
            push_str(&mut s, " (");
            push_str(&mut s, e.detail.as_str());
            push_str(&mut s, ")");
        }
        assert(ev[i as int] == (e.name@, e.object_id, e.detail@));
        if spaces {
            assert(s@ =~= space_line(ev[i as int]));
        } else {
            assert(s@ =~= resource_line(ev[i as int]));
        }
        assert(s@ == f(ev[i as int]));
        push_line(lines, s);
        assert(ev.take(i + 1).map_values(f) =~= ev.take(i as int).map_values(f).push(f(ev[i as int])));
        i = i + 1;
    }
    assert(ev.take(ev.len() as int) =~= ev);
}

fn plural_string(n: usize, word: &str) -> (s: String)
    ensures
        s@ == plural(n as nat, word@),
{
    let mut s = String::new();
    push_dec(&mut s, n as u64);
    push_str(&mut s, " ");
    push_str(&mut s, word);
    if n != 1 {
        push_str(&mut s, "s");
    }
    s
}

fn push_annotations_line(lines: &mut Vec<String>, info: &PageInfo)
    ensures
        views(final(lines)@) == views(old(lines)@) + annotations_part(*info),
{
    if info.annotation_count == 0 {
        assert(views(lines@) =~= views(old(lines)@) + Seq::<Seq<char>>::empty());
        return;
    }
    let t = &info.annotation_subtypes;
    let ghost tv = tally_views(t@);
    let mut parts: Vec<String> = Vec::new();
    let mut i: usize = 0;
    while i < t.len()
        invariant
            i <= t@.len(),
            tv == tally_views(t@),
            views(parts@) == tv.take(i as int).map_values(|e: (Seq<char>, nat)| dec(e.1) + " "@ + e.0),
        decreases t.len() - i,
    {
        let mut s = String::new();
        push_dec(&mut s, t[i].1 as u64);
        push_str(&mut s, " ");
        push_str(&mut s, t[i].0.as_str());
        push_line(&mut parts, s);
        assert(tv.take(i + 1).map_values(|e: (Seq<char>, nat)| dec(e.1) + " "@ + e.0) =~= tv.take(i as int).map_values(
            |e: (Seq<char>, nat)| dec(e.1) + " "@ + e.0,
        ).push(dec(tv[i as int].1) + " "@ + tv[i as int].0));
        i = i + 1;
    }
    assert(tv.take(tv.len() as int) =~= tv);
    let mut s = String::new();
    push_str(&mut s, "  Annotations:  ");
    push_dec(&mut s, info.annotation_count as u64);
    push_str(&mut s, " (");
    push_joined(&mut s, &parts, ", ");
    push_str(&mut s, ")");
    push_line(lines, s);
}

fn push_tail_lines(lines: &mut Vec<String>, info: &PageInfo)
    ensures
        views(final(lines)@) == views(old(lines)@) + tail_part(*info),
{
    let ghost l0 = views(lines@);
    if info.content_stream_count > 0 {
        let mut s = String::new();
        push_str(&mut s, "  Content:      ");
        push_dec(&mut s, info.content_stream_count as u64);
        push_str(&mut s, " stream");
        if info.content_stream_count != 1 {
            push_str(&mut s, "s");
        }
        push_str(&mut s, ", ");
        push_dec_u128(&mut s, info.content_stream_bytes);
        push_str(&mut s, " bytes");
        push_line(lines, s);
    }
    let ghost l1 = views(lines@);
    assert(l1 =~= l0 + (if info.content_stream_count > 0 {
        seq![
            "  Content:      "@ + dec(info.content_stream_count as nat) + " stream"@ + (if info.content_stream_count
                == 1 {
                Seq::<char>::empty()
            } else {
                "s"@
            }) + ", "@ + dec(info.content_stream_bytes as nat) + " bytes"@,
        ]
    } else {
        Seq::empty()
    }));
    if info.text_preview.unicode_len() > 0 {
        let mut s = String::new();
        push_str(&mut s, "  Text preview: ");
        if info.text_extractable {
            push_str(&mut s, "\"");
            push_str(&mut s, info.text_preview.as_str());
            push_str(&mut s, "\"");
        } else {
            push_str(&mut s, info.text_preview.as_str());
        }
        push_line(lines, s);
    }
    let ghost l2 = views(lines@);
    assert(l2 =~= l1 + (if info.text_preview@.len() == 0 {
        Seq::empty()
    } else if info.text_extractable {
        seq!["  Text preview: "@ + "\""@ + info.text_preview@ + "\""@]
    } else {
        seq!["  Text preview: "@ + info.text_preview@]
    }));
    let ghost wv = views(info.warnings@);
    let mut k: usize = 0;
    while k < info.warnings.len()
        invariant
            k <= info.warnings@.len(),
            wv == views(info.warnings@),
            views(lines@) == l2 + wv.take(k as int).map_values(|w: Seq<char>| "  Warning: "@ + w),
        decreases info.warnings.len() - k,
    {
        let mut s = String::new();
        push_str(&mut s, "  Warning: ");
        push_str(&mut s, info.warnings[k].as_str());
        push_line(lines, s);
        assert(wv.take(k + 1).map_values(|w: Seq<char>| "  Warning: "@ + w) =~= wv.take(k as int).map_values(
            |w: Seq<char>| "  Warning: "@ + w,
        ).push("  Warning: "@ + wv[k as int]));
        k = k + 1;
    }
    assert(wv.take(wv.len() as int) =~= wv);
    push_line(lines, String::new());
}

fn push_page_head(lines: &mut Vec<String>, info: &PageInfo)
    ensures
        views(final(lines)@) == views(old(lines)@) + page_head(*info),
{
    let mut a = String::new();
    push_str(&mut a, "Page ");
    push_dec(&mut a, info.page_num as u64);
    push_str(&mut a, " (Object ");
    push_dec(&mut a, info.object_id.num as u64);
    push_str(&mut a, " ");
    push_dec(&mut a, info.object_id.gen as u64);
    push_str(&mut a, ")");
    push_line(lines, a);
    let mut b = String::new();
    push_str(&mut b, "  MediaBox:     ");
    push_str(&mut b, info.media_box.as_str());
    push_line(lines, b);
    if let Some(c) = &info.crop_box {
        let mut s = String::new();
        push_str(&mut s, "  CropBox:      ");
        push_str(&mut s, c.as_str());
        push_line(lines, s);
    }
    if let Some(r) = info.rotate {
        let mut s = String::new();
        push_str(&mut s, "  Rotate:       ");
        push_dec_i64(&mut s, r);
        push_line(lines, s);
    }
    assert(views(lines@) =~= views(old(lines)@) + page_head(*info));
}

fn push_resources(lines: &mut Vec<String>, res: &PageResources)
    ensures
        views(final(lines)@) == views(old(lines)@) + resources_part(*res),
{
    let mut fh = String::new();
    push_str(&mut fh, "  Fonts:        ");
    push_dec(&mut fh, res.fonts.len() as u64);
    push_section(lines, fh, &res.fonts, false);
    let images = count_images(&res.xobjects);
    proof {
        lemma_image_count_le(entry_views(res.xobjects@));
    }
    let forms = res.xobjects.len() - images;
    let mut kinds: Vec<String> = Vec::new();
    if images > 0 {
        push_line(&mut kinds, plural_string(images, "image"));
    }
    if forms > 0 {
        push_line(&mut kinds, plural_string(forms, "form"));
    }
    assert(views(kinds@) =~= xobject_kinds(entry_views(res.xobjects@)));
    let mut xh = String::new();
    push_str(&mut xh, "  XObjects:     ");
    push_dec(&mut xh, res.xobjects.len() as u64);
    push_str(&mut xh, " (");
    push_joined(&mut xh, &kinds, ", ");
    push_str(&mut xh, ")");
    push_section(lines, xh, &res.xobjects, false);
    let mut gh = String::new();
    push_str(&mut gh, "  ExtGState:    ");
    push_dec(&mut gh, res.ext_gstate.len() as u64);
    push_section(lines, gh, &res.ext_gstate, false);
    let mut ch = String::new();
    push_str(&mut ch, "  ColorSpaces:  ");
    push_dec(&mut ch, res.color_spaces.len() as u64);
    push_section(lines, ch, &res.color_spaces, true);
    assert(views(lines@) =~= views(old(lines)@) + resources_part(*res));
}

/// The report of one page, line by line: its object, boxes, rotation,
/// resources, annotations, content streams, text preview and warnings,
/// then a blank line.
pub fn print_page_info(info: &PageInfo) -> (r: Vec<String>)
    ensures
        views(r@) == page_report(*info),
{
    let mut lines: Vec<String> = Vec::new();
    push_page_head(&mut lines, info);
    push_resources(&mut lines, &info.resources);
    push_annotations_line(&mut lines, info);
    push_tail_lines(&mut lines, info);
    assert(views(lines@) =~= page_report(*info));
    lines
}

proof fn lemma_image_count_le(es: Seq<EntrySpec>)
    ensures
        image_count_of(es) <= es.len(),
    decreases es.len(),
{
    if es.len() > 0 {
        lemma_image_count_le(es.drop_last());
    }
}

} // verus!
