//! The reference tree: a depth-first walk from the trailer that shows each
//! object once, as indented text or as a Graphviz graph.
use vstd::prelude::*;
use crate::model::{entry_get, find_entry, get_object, lemma_lookup_found, lookup, objects_sorted, resolve_object, ObjRef, PdfDoc, PdfValue};
use crate::refs::{collect_refs_from_dict, collect_refs_with_paths, entry_paths, object_paths, path_views};
use crate::stream::{lossy_string, utf8_lossy};
use crate::textbuf::{dec, dec_int, push_dec, push_dec_i64, push_line, push_str, views};
use crate::types::DumpConfig;
use crate::json::{jv, jv_items, jv_members, lemma_jv_items_len, lemma_jv_items_push, member, push_member, text, Json, JsonV};
use crate::validate::{contains_ref, key};

verus! {

/// A stream's `/Type`, or `Stream`.
pub open spec fn stream_kind(dict: Seq<(Vec<u8>, PdfValue)>) -> Seq<char> {
    match entry_get(dict, key("Type"@)) {
        Some(PdfValue::Name(n)) => utf8_lossy(n@),
        _ => "Stream"@,
    }
}

/// A node's label: a dictionary's `/Type`, a stream's type and size, or
/// the kind and value of anything else.
pub open spec fn node_label(v: PdfValue) -> Seq<char> {
    match v {
        PdfValue::Dictionary(es) => match entry_get(es@, key("Type"@)) {
            Some(PdfValue::Name(n)) => utf8_lossy(n@),
            _ => "Dictionary, "@ + dec(es@.len()) + " keys"@,
        },
        PdfValue::Stream { dict, content } => stream_kind(dict@) + ", "@ + dec(content@.len()) + " bytes"@,
        PdfValue::Array(items) => "Array, "@ + dec(items@.len()) + " items"@,
        PdfValue::Boolean(b) => if b {
            "Boolean(true)"@
        } else {
            "Boolean(false)"@
        },
        PdfValue::Integer(i) => "Integer("@ + dec_int(i as int) + ")"@,
        PdfValue::Real(r) => "Real("@ + r@ + ")"@,
        PdfValue::Name(n) => "Name("@ + utf8_lossy(n@) + ")"@,
        PdfValue::Str(s) => "String("@ + utf8_lossy(s@) + ")"@,
        PdfValue::Null => "Null"@,
        PdfValue::Reference(r) => "Reference("@ + dec(r.num as nat) + " "@ + dec(r.gen as nat) + ")"@,
    }
}

fn declared_type<'a>(es: &'a Vec<(Vec<u8>, PdfValue)>) -> (r: Option<&'a Vec<u8>>)
    ensures
        match r {
            Some(n) => entry_get(es@, key("Type"@)) == Some(PdfValue::Name(*n)),
            None => !(entry_get(es@, key("Type"@)) matches Some(PdfValue::Name(_))),
        },
{
    match find_entry(es, "Type".as_bytes()) {
        Some(j) => match &es[j].1 {
            PdfValue::Name(n) => Some(n),
            _ => None,
        },
        None => None,
    }
}

/// The label shown for an object in the reference tree.
pub fn tree_node_label(v: &PdfValue) -> (r: String)
    ensures
        r@ == node_label(*v),
{
    let mut s = String::new();
    match v {
        PdfValue::Dictionary(es) => match declared_type(es) {
            Some(n) => {
                let t = lossy_string(n.as_slice());
                push_str(&mut s, t.as_str());
            },
            None => {
                push_str(&mut s, "Dictionary, ");
                push_dec(&mut s, es.len() as u64);
                push_str(&mut s, " keys");
            },
        },
        PdfValue::Stream { dict, content } => {
            match declared_type(dict) {
                Some(n) => {
                    let t = lossy_string(n.as_slice());
                    push_str(&mut s, t.as_str());
                },
                None => {
                    push_str(&mut s, "Stream");
                },
            }
            push_str(&mut s, ", ");
            push_dec(&mut s, content.len() as u64);
            push_str(&mut s, " bytes");
        },
        PdfValue::Array(items) => {
            push_str(&mut s, "Array, ");
            push_dec(&mut s, items.len() as u64);
            push_str(&mut s, " items");
        },
        PdfValue::Boolean(b) => {
            if *b {
                push_str(&mut s, "Boolean(true)");
            } else {
                push_str(&mut s, "Boolean(false)");
            }
        },
        PdfValue::Integer(i) => {
            push_str(&mut s, "Integer(");
            push_dec_i64(&mut s, *i);
            push_str(&mut s, ")");
        },
        PdfValue::Real(r) => {
            push_str(&mut s, "Real(");
            push_str(&mut s, r.as_str());
            push_str(&mut s, ")");
        },
        PdfValue::Name(n) => {
            push_str(&mut s, "Name(");
            let t = lossy_string(n.as_slice());
            push_str(&mut s, t.as_str());
            push_str(&mut s, ")");
        },
        PdfValue::Str(b) => {
            push_str(&mut s, "String(");
            let t = lossy_string(b.as_slice());
            push_str(&mut s, t.as_str());
            push_str(&mut s, ")");
        },
        PdfValue::Null => {
            push_str(&mut s, "Null");
        },
        PdfValue::Reference(r) => {
            push_str(&mut s, "Reference(");
            push_dec(&mut s, r.num as u64);
            push_str(&mut s, " ");
            push_dec(&mut s, r.gen as u64);
            push_str(&mut s, ")");
        },
    }
    s
}

/// A character as it stands inside a quoted Graphviz string.
pub open spec fn dot_char(c: char) -> Seq<char> {
    if c == '\\' {
        seq!['\\', '\\']
    } else if c == '"' {
        seq!['\\', '"']
    } else {
        seq![c]
    }
}

/// Text with backslashes and double quotes escaped for Graphviz.
pub open spec fn dot_escaped(s: Seq<char>) -> Seq<char>
    decreases s.len(),
{
    if s.len() == 0 {
        Seq::empty()
    } else {
        dot_escaped(s.drop_last()) + dot_char(s.last())
    }
}

/// Escapes backslashes and double quotes for a quoted Graphviz string.
pub fn escape_dot(s: &str) -> (r: String)
    ensures
        r@ == dot_escaped(s@),
{
    let mut out = String::new();
    let n = s.unicode_len();
    let mut i: usize = 0;
    assert(s@.take(0) =~= Seq::<char>::empty());
    while i < n
        invariant
            n == s@.len(),
            i <= n,
            out@ == dot_escaped(s@.take(i as int)),
        decreases n - i,
    {
        let c = s.get_char(i);
        assert(s@.take(i + 1).drop_last() =~= s@.take(i as int));
        if c == '\\' {
            push_str(&mut out, "\\\\");
            proof {
                reveal_strlit("\\\\");
            }
        } else if c == '"' {
            push_str(&mut out, "\\\"");
            proof {
                reveal_strlit("\\\"");
            }
        } else {
            crate::textbuf::push_char(&mut out, c);
        }
        assert(out@ =~= dot_escaped(s@.take(i + 1)));
        i = i + 1;
    }
    assert(s@.take(n as int) =~= s@);
    out
}

/// How the tree is written.
#[derive(Clone, Copy, PartialEq, Eq, Structural)]
pub enum TreeStyle {
    /// Indented lines.
    Text,
    /// Graphviz statements.
    Dot,
}

pub open spec fn indent(depth: nat) -> Seq<char>
    decreases depth,
{
    if depth == 0 {
        Seq::empty()
    } else {
        indent((depth - 1) as nat) + "  "@
    }
}

pub open spec fn id_text(r: ObjRef) -> Seq<char> {
    dec(r.num as nat) + " "@ + dec(r.gen as nat)
}

pub open spec fn dot_node(r: ObjRef) -> Seq<char> {
    "obj_"@ + dec(r.num as nat) + "_"@ + dec(r.gen as nat)
}

pub open spec fn text_node_line(depth: nat, path: Seq<char>, r: ObjRef, note: Seq<char>) -> Seq<char> {
    indent(depth) + path + " -> "@ + id_text(r) + " ("@ + note + ")"@
}

pub open spec fn dot_edge(parent: Seq<char>, r: ObjRef, path: Seq<char>) -> Seq<char> {
    "  \""@ + parent + "\" -> \""@ + dot_node(r) + "\" [label=\""@ + dot_escaped(path) + "\"];"@
}

/// What became of a node.
#[derive(Clone, Copy, PartialEq, Eq, Structural)]
pub enum NodeKind {
    /// Already shown.
    Visited,
    /// Deeper than the depth limit.
    DepthLimited,
    /// Shown with its label.
    Shown,
    /// No object has its id.
    Missing,
}

/// The lines for one node; `label` is used for a shown node.
pub open spec fn node_lines(
    style: TreeStyle,
    kind: NodeKind,
    label: Seq<char>,
    depth: nat,
    path: Seq<char>,
    parent: Seq<char>,
    r: ObjRef,
) -> Seq<Seq<char>> {
    match style {
        TreeStyle::Text => match kind {
            NodeKind::Visited => seq![text_node_line(depth, path, r, "visited"@)],
            NodeKind::DepthLimited => seq![text_node_line(depth, path, r, "depth limit reached"@)],
            NodeKind::Shown => seq![text_node_line(depth, path, r, label)],
            NodeKind::Missing => seq![text_node_line(depth, path, r, "missing"@)],
        },
        TreeStyle::Dot => match kind {
            NodeKind::Visited => seq![dot_edge(parent, r, path)],
            NodeKind::DepthLimited => Seq::empty(),
            NodeKind::Shown => seq![
                "  \""@ + dot_node(r) + "\" [label=\""@ + id_text(r) + ": "@ + dot_escaped(label) + "\"];"@,
                dot_edge(parent, r, path),
            ],
            NodeKind::Missing => seq![
                "  \""@ + dot_node(r) + "\" [label=\""@ + id_text(r) + " (missing)\", style=dashed];"@,
                dot_edge(parent, r, path),
            ],
        },
    }
}

/// The walk from one reference at `depth`, with the ids in `visited`
/// already shown: the lines written and the ids shown afterwards. Below
/// `fuel` levels the children of a shown object are not walked (one level
/// per object always suffices: see `law_tree_fuel`).
pub open spec fn tree_walk(
    objs: Seq<(ObjRef, PdfValue)>,
    style: TreeStyle,
    r: ObjRef,
    path: Seq<char>,
    parent: Seq<char>,
    visited: Seq<ObjRef>,
    depth: nat,
    limit: Option<usize>,
    fuel: nat,
) -> (Seq<Seq<char>>, Seq<ObjRef>)
    decreases fuel, 0nat, 0nat,
{
    if visited.contains(r) {
        (node_lines(style, NodeKind::Visited, Seq::empty(), depth, path, parent, r), visited)
    } else if limit matches Some(m) && depth > m {
        (node_lines(style, NodeKind::DepthLimited, Seq::empty(), depth, path, parent, r), visited)
    } else {
        let v2 = visited.push(r);
        match get_object(objs, r) {
            Some(i) => {
                let head = node_lines(style, NodeKind::Shown, node_label(objs[i].1), depth, path, parent, r);
                if fuel == 0 {
                    (head, v2)
                } else {
                    let cs = object_paths(objs[i].1);
                    let c = tree_kids(objs, style, cs, dot_node(r), v2, depth + 1, limit, (fuel - 1) as nat, cs.len());
                    (head + c.0, c.1)
                }
            },
            None => (node_lines(style, NodeKind::Missing, Seq::empty(), depth, path, parent, r), v2),
        }
    }
}

/// The walk from the first `n` of the references `cs`, in turn.
pub open spec fn tree_kids(
    objs: Seq<(ObjRef, PdfValue)>,
    style: TreeStyle,
    cs: Seq<(Seq<char>, ObjRef)>,
    parent: Seq<char>,
    visited: Seq<ObjRef>,
    depth: nat,
    limit: Option<usize>,
    fuel: nat,
    n: nat,
) -> (Seq<Seq<char>>, Seq<ObjRef>)
    decreases fuel, 1nat, n,
{
    if n == 0 {
        (Seq::empty(), visited)
    } else {
        let prev = tree_kids(objs, style, cs, parent, visited, depth, limit, fuel, (n - 1) as nat);
        let w = tree_walk(objs, style, cs[n - 1].1, cs[n - 1].0, parent, prev.1, depth, limit, fuel);
        (prev.0 + w.0, w.1)
    }
}

/// The lines of the whole tree below the trailer.
pub open spec fn trailer_walk(d: PdfDoc, style: TreeStyle, limit: Option<usize>) -> Seq<Seq<char>> {
    let cs = entry_paths(d.trailer@, Seq::empty());
    tree_kids(d.objects@, style, cs, "trailer"@, Seq::empty(), 1, limit, d.objects@.len(), cs.len()).0
}

pub open spec fn tree_text(d: PdfDoc, limit: Option<usize>) -> Seq<Seq<char>> {
    seq!["Reference Tree:"@, Seq::empty(), "Trailer"@] + trailer_walk(d, TreeStyle::Text, limit)
}

pub open spec fn tree_dot(d: PdfDoc, limit: Option<usize>) -> Seq<Seq<char>> {
    seq![
        "digraph pdf {"@,
        "  rankdir=LR;"@,
        "  node [shape=box, fontname=\"monospace\"];"@,
        "  \"trailer\" [label=\"Trailer\"];"@,
    ] + trailer_walk(d, TreeStyle::Dot, limit) + seq!["}"@]
}

fn id_string(r: ObjRef) -> (s: String)
    ensures
        s@ == id_text(r),
{
    let mut s = String::new();
    push_dec(&mut s, r.num as u64);
    push_str(&mut s, " ");
    push_dec(&mut s, r.gen as u64);
    s
}

fn dot_node_string(r: ObjRef) -> (s: String)
    ensures
        s@ == dot_node(r),
{
    let mut s = String::new();
    push_str(&mut s, "obj_");
    push_dec(&mut s, r.num as u64);
    push_str(&mut s, "_");
    push_dec(&mut s, r.gen as u64);
    s
}

pub(crate) fn push_indent(s: &mut String, depth: usize)
    ensures
        final(s)@ == old(s)@ + indent(depth as nat),
{
    let mut k: usize = 0;
    while k < depth
        invariant
            k <= depth,
            s@ == old(s)@ + indent(k as nat),
        decreases depth - k,
    {
        push_str(s, "  ");
        k = k + 1;
    }
}

fn text_note(kind: NodeKind, label: &String) -> (r: String)
    ensures
        kind == NodeKind::Shown ==> r@ == label@,
        kind == NodeKind::Visited ==> r@ == "visited"@,
        kind == NodeKind::DepthLimited ==> r@ == "depth limit reached"@,
        kind == NodeKind::Missing ==> r@ == "missing"@,
{
    let mut s = String::new();
    match kind {
        NodeKind::Visited => push_str(&mut s, "visited"),
        NodeKind::DepthLimited => push_str(&mut s, "depth limit reached"),
        NodeKind::Shown => push_str(&mut s, label.as_str()),
        NodeKind::Missing => push_str(&mut s, "missing"),
    }
    s
}

fn write_node(
    out: &mut Vec<String>,
    style: TreeStyle,
    kind: NodeKind,
    label: &String,
    depth: usize,
    path: &String,
    parent: &String,
    r: ObjRef,
)
    ensures
        views(final(out)@) == views(old(out)@) + node_lines(style, kind, label@, depth as nat, path@, parent@, r),
{
    match style {
        TreeStyle::Text => {
            let mut s = String::new();
            push_indent(&mut s, depth);
            push_str(&mut s, path.as_str());
            push_str(&mut s, " -> ");
            let t = id_string(r);
            push_str(&mut s, t.as_str());
            push_str(&mut s, " (");
            let note = text_note(kind, label);
            push_str(&mut s, note.as_str());
            push_str(&mut s, ")");
            push_line(out, s);
            assert(views(out@) =~= views(old(out)@) + node_lines(style, kind, label@, depth as nat, path@, parent@, r));
        },
        TreeStyle::Dot => {
            let nn = dot_node_string(r);
            let mut edge = String::new();
            push_str(&mut edge, "  \"");
            push_str(&mut edge, parent.as_str());
            push_str(&mut edge, "\" -> \"");
            push_str(&mut edge, nn.as_str());
            push_str(&mut edge, "\" [label=\"");
            let ep = escape_dot(path.as_str());
            push_str(&mut edge, ep.as_str());
            push_str(&mut edge, "\"];");
            match kind {
                NodeKind::Visited => {
                    push_line(out, edge);
                },
                NodeKind::DepthLimited => {},
                NodeKind::Shown => {
                    let mut s = String::new();
                    push_str(&mut s, "  \"");
                    push_str(&mut s, nn.as_str());
                    push_str(&mut s, "\" [label=\"");
                    let t = id_string(r);
                    push_str(&mut s, t.as_str());
                    push_str(&mut s, ": ");
                    let el = escape_dot(label.as_str());
                    push_str(&mut s, el.as_str());
                    push_str(&mut s, "\"];");
                    push_line(out, s);
                    push_line(out, edge);
                },
                NodeKind::Missing => {
                    let mut s = String::new();
                    push_str(&mut s, "  \"");
                    push_str(&mut s, nn.as_str());
                    push_str(&mut s, "\" [label=\"");
                    let t = id_string(r);
                    push_str(&mut s, t.as_str());
                    push_str(&mut s, " (missing)\", style=dashed];");
                    push_line(out, s);
                    push_line(out, edge);
                },
            }
            assert(views(out@) =~= views(old(out)@) + node_lines(style, kind, label@, depth as nat, path@, parent@, r));
        },
    }
}

fn walk_node(
    objs: &Vec<(ObjRef, PdfValue)>,
    style: TreeStyle,
    r: ObjRef,
    path: &String,
    parent: &String,
    visited: &mut Vec<ObjRef>,
    depth: usize,
    limit: Option<usize>,
    fuel: usize,
    out: &mut Vec<String>,
)
    requires
        objects_sorted(objs@),
        depth + fuel < usize::MAX,
    ensures
        views(final(out)@) == views(old(out)@) + tree_walk(
            objs@,
            style,
            r,
            path@,
            parent@,
            old(visited)@,
            depth as nat,
            limit,
            fuel as nat,
        ).0,
        final(visited)@ == tree_walk(objs@, style, r, path@, parent@, old(visited)@, depth as nat, limit, fuel as nat).1,
    decreases fuel, 0nat, 0nat,
{
    let empty = String::new();
    if contains_ref(visited, r) {
        write_node(out, style, NodeKind::Visited, &empty, depth, path, parent, r);
        return;
    }
    if let Some(m) = limit {
        if depth > m {
            write_node(out, style, NodeKind::DepthLimited, &empty, depth, path, parent, r);
            return;
        }
    }
    visited.push(r);
    match resolve_object(objs, r) {
        Some(i) => {
            let label = tree_node_label(&objs[i].1);
            let ghost before = views(out@);
            write_node(out, style, NodeKind::Shown, &label, depth, path, parent, r);
            if fuel > 0 {
                let cs = collect_refs_with_paths(&objs[i].1);
                let nn = dot_node_string(r);
                let ghost mid = views(out@);
                walk_kids(objs, style, &cs, &nn, visited, depth + 1, limit, fuel - 1, out);
                assert(views(out@) =~= before + tree_walk(
                    objs@,
                    style,
                    r,
                    path@,
                    parent@,
                    old(visited)@,
                    depth as nat,
                    limit,
                    fuel as nat,
                ).0);
            }
        },
        None => {
            write_node(out, style, NodeKind::Missing, &empty, depth, path, parent, r);
        },
    }
}

fn walk_kids(
    objs: &Vec<(ObjRef, PdfValue)>,
    style: TreeStyle,
    cs: &Vec<(String, ObjRef)>,
    parent: &String,
    visited: &mut Vec<ObjRef>,
    depth: usize,
    limit: Option<usize>,
    fuel: usize,
    out: &mut Vec<String>,
)
    requires
        objects_sorted(objs@),
        depth + fuel < usize::MAX,
    ensures
        views(final(out)@) == views(old(out)@) + tree_kids(
            objs@,
            style,
            path_views(cs@),
            parent@,
            old(visited)@,
            depth as nat,
            limit,
            fuel as nat,
            cs@.len(),
        ).0,
        final(visited)@ == tree_kids(
            objs@,
            style,
            path_views(cs@),
            parent@,
            old(visited)@,
            depth as nat,
            limit,
            fuel as nat,
            cs@.len(),
        ).1,
    decreases fuel, 1nat, 0nat,
{
    let ghost pv = path_views(cs@);
    let ghost v0 = visited@;
    let ghost o0 = views(out@);
    let mut k: usize = 0;
    assert(o0 =~= o0 + tree_kids(objs@, style, pv, parent@, v0, depth as nat, limit, fuel as nat, 0).0);
    while k < cs.len()
        invariant
            objects_sorted(objs@),
            depth + fuel < usize::MAX,
            k <= cs@.len(),
            pv == path_views(cs@),
            views(out@) == o0 + tree_kids(objs@, style, pv, parent@, v0, depth as nat, limit, fuel as nat, k as nat).0,
            visited@ == tree_kids(objs@, style, pv, parent@, v0, depth as nat, limit, fuel as nat, k as nat).1,
        decreases cs.len() - k,
    {
        assert(pv[k as int] == (cs@[k as int].0@, cs@[k as int].1));
        walk_node(objs, style, cs[k].1, &cs[k].0, parent, visited, depth, limit, fuel, out);
        assert(views(out@) =~= o0 + tree_kids(
            objs@,
            style,
            pv,
            parent@,
            v0,
            depth as nat,
            limit,
            fuel as nat,
            (k + 1) as nat,
        ).0);
        k = k + 1;
    }
}

fn walk_trailer(doc: &PdfDoc, style: TreeStyle, limit: Option<usize>, out: &mut Vec<String>)
    requires
        objects_sorted(doc.objects@),
        doc.objects@.len() + 1 < usize::MAX,
    ensures
        views(final(out)@) == views(old(out)@) + trailer_walk(*doc, style, limit),
{
    let cs = collect_refs_from_dict(&doc.trailer);
    let mut parent = String::new();
    push_str(&mut parent, "trailer");
    let mut visited: Vec<ObjRef> = Vec::new();
    assert(visited@ =~= Seq::<ObjRef>::empty());
    walk_kids(&doc.objects, style, &cs, &parent, &mut visited, 1, limit, doc.objects.len(), out);
}

/// The reference tree as text: a heading, the trailer, then each reference
/// reached depth first from the trailer, indented by depth, with objects
/// already shown marked `(visited)`, and references deeper than
/// `config.depth` marked as cut off.
pub fn print_tree(doc: &PdfDoc, config: &DumpConfig) -> (r: Vec<String>)
    requires
        objects_sorted(doc.objects@),
        doc.objects@.len() + 1 < usize::MAX,
    ensures
        views(r@) == tree_text(*doc, config.depth),
{
    let mut out: Vec<String> = Vec::new();
    let mut h = String::new();
    push_str(&mut h, "Reference Tree:");
    push_line(&mut out, h);
    push_line(&mut out, String::new());
    let mut t = String::new();
    push_str(&mut t, "Trailer");
    push_line(&mut out, t);
    walk_trailer(doc, TreeStyle::Text, config.depth, &mut out);
    assert(views(out@) =~= tree_text(*doc, config.depth));
    out
}

/// The reference tree as a Graphviz digraph: a node per object shown, an
/// edge labelled with its key path per reference.
pub fn print_tree_dot(doc: &PdfDoc, config: &DumpConfig) -> (r: Vec<String>)
    requires
        objects_sorted(doc.objects@),
        doc.objects@.len() + 1 < usize::MAX,
    ensures
        views(r@) == tree_dot(*doc, config.depth),
{
    let mut out: Vec<String> = Vec::new();
    let mut a = String::new();
    push_str(&mut a, "digraph pdf {");
    push_line(&mut out, a);
    let mut b = String::new();
    push_str(&mut b, "  rankdir=LR;");
    push_line(&mut out, b);
    let mut c = String::new();
    push_str(&mut c, "  node [shape=box, fontname=\"monospace\"];");
    push_line(&mut out, c);
    let mut e = String::new();
    push_str(&mut e, "  \"trailer\" [label=\"Trailer\"];");
    push_line(&mut out, e);
    walk_trailer(doc, TreeStyle::Dot, config.depth, &mut out);
    let mut z = String::new();
    push_str(&mut z, "}");
    push_line(&mut out, z);
    assert(views(out@) =~= tree_dot(*doc, config.depth));
    out
}

proof fn lemma_walk_keeps_visited(
    objs: Seq<(ObjRef, PdfValue)>,
    style: TreeStyle,
    r: ObjRef,
    path: Seq<char>,
    parent: Seq<char>,
    visited: Seq<ObjRef>,
    depth: nat,
    limit: Option<usize>,
    fuel: nat,
)
    ensures
        forall|x: ObjRef| visited.contains(x) ==> #[trigger] tree_walk(objs, style, r, path, parent, visited, depth, limit, fuel).1.contains(x),
    decreases fuel, 0nat, 0nat,
{
    if !visited.contains(r) && !(limit matches Some(m) && depth > m) {
        let v2 = visited.push(r);
        assert forall|x: ObjRef| visited.contains(x) implies v2.contains(x) by {
            let j = choose|j: int| 0 <= j < visited.len() && visited[j] == x;
            assert(v2[j] == x);
        }
        if let Some(i) = get_object(objs, r) {
            if fuel > 0 {
                let cs = object_paths(objs[i].1);
                lemma_kids_keep_visited(objs, style, cs, dot_node(r), v2, depth + 1, limit, (fuel - 1) as nat, cs.len());
                let res = tree_kids(objs, style, cs, dot_node(r), v2, depth + 1, limit, (fuel - 1) as nat, cs.len());
                assert forall|x: ObjRef| visited.contains(x) implies #[trigger] tree_walk(
                    objs,
                    style,
                    r,
                    path,
                    parent,
                    visited,
                    depth,
                    limit,
                    fuel,
                ).1.contains(x) by {
                    assert(v2.contains(x));
                    assert(res.1.contains(x));
                }
            }
        }
    }
}

proof fn lemma_kids_keep_visited(
    objs: Seq<(ObjRef, PdfValue)>,
    style: TreeStyle,
    cs: Seq<(Seq<char>, ObjRef)>,
    parent: Seq<char>,
    visited: Seq<ObjRef>,
    depth: nat,
    limit: Option<usize>,
    fuel: nat,
    n: nat,
)
    ensures
        forall|x: ObjRef| visited.contains(x) ==> #[trigger] tree_kids(objs, style, cs, parent, visited, depth, limit, fuel, n).1.contains(x),
    decreases fuel, 1nat, n,
{
    if n > 0 {
        lemma_kids_keep_visited(objs, style, cs, parent, visited, depth, limit, fuel, (n - 1) as nat);
        let prev = tree_kids(objs, style, cs, parent, visited, depth, limit, fuel, (n - 1) as nat);
        lemma_walk_keeps_visited(objs, style, cs[n - 1].1, cs[n - 1].0, parent, prev.1, depth, limit, fuel);
        let w = tree_walk(objs, style, cs[n - 1].1, cs[n - 1].0, parent, prev.1, depth, limit, fuel);
        assert forall|x: ObjRef| visited.contains(x) implies #[trigger] tree_kids(
            objs,
            style,
            cs,
            parent,
            visited,
            depth,
            limit,
            fuel,
            n,
        ).1.contains(x) by {
            assert(prev.1.contains(x));
            assert(w.1.contains(x));
        }
    }
}

/// The walk below a shown object never needs more levels than there are
/// objects: when the objects on the current chain of shown ancestors
/// (`anc`, all in `visited`) and the levels left (`fuel`) together number
/// at least the objects, more levels give the same result.
pub proof fn law_tree_fuel(
    objs: Seq<(ObjRef, PdfValue)>,
    style: TreeStyle,
    r: ObjRef,
    path: Seq<char>,
    parent: Seq<char>,
    visited: Seq<ObjRef>,
    depth: nat,
    limit: Option<usize>,
    anc: Seq<ObjRef>,
    fuel: nat,
    more: nat,
)
    requires
        anc.no_duplicates(),
        forall|i: int| 0 <= i < anc.len() ==> (#[trigger] lookup(objs, anc[i])) is Some,
        forall|i: int| 0 <= i < anc.len() ==> visited.contains(#[trigger] anc[i]),
        fuel + anc.len() >= objs.len(),
        fuel <= more,
    ensures
        tree_walk(objs, style, r, path, parent, visited, depth, limit, fuel) == tree_walk(
            objs,
            style,
            r,
            path,
            parent,
            visited,
            depth,
            limit,
            more,
        ),
    decreases fuel, 0nat, 0nat,
{
    if !visited.contains(r) && !(limit matches Some(m) && depth > m) {
        let v2 = visited.push(r);
        if let Some(i) = get_object(objs, r) {
            let anc2 = anc.push(r);
            assert(lookup(objs, r) is Some);
            assert(anc2.no_duplicates()) by {
                assert forall|a: int, b: int| 0 <= a < anc2.len() && 0 <= b < anc2.len() && a != b implies anc2[a] != anc2[b] by {
                    if a < anc.len() && b < anc.len() {
                        assert(anc[a] != anc[b]);
                    } else if a < anc.len() {
                        assert(visited.contains(anc[a]));
                    } else {
                        assert(visited.contains(anc[b]));
                    }
                }
            }
            assert forall|j: int| 0 <= j < anc2.len() implies (#[trigger] lookup(objs, anc2[j])) is Some by {
                if j < anc.len() {
                    assert(anc2[j] == anc[j]);
                }
            }
            if fuel == 0 {
                crate::validate::lemma_existing_distinct(objs, anc2);
            } else {
                assert forall|j: int| 0 <= j < anc2.len() implies v2.contains(#[trigger] anc2[j]) by {
                    if j < anc.len() {
                        assert(anc2[j] == anc[j]);
                        let w = choose|w: int| 0 <= w < visited.len() && visited[w] == anc[j];
                        assert(v2[w] == anc[j]);
                    } else {
                        assert(v2[visited.len() as int] == r);
                    }
                }
                let cs = object_paths(objs[i].1);
                law_tree_kids_fuel(
                    objs,
                    style,
                    cs,
                    dot_node(r),
                    v2,
                    depth + 1,
                    limit,
                    anc2,
                    (fuel - 1) as nat,
                    (more - 1) as nat,
                    cs.len(),
                );
            }
        }
    }
}

/// `law_tree_fuel` for the walk from the first `n` references of a list.
pub proof fn law_tree_kids_fuel(
    objs: Seq<(ObjRef, PdfValue)>,
    style: TreeStyle,
    cs: Seq<(Seq<char>, ObjRef)>,
    parent: Seq<char>,
    visited: Seq<ObjRef>,
    depth: nat,
    limit: Option<usize>,
    anc: Seq<ObjRef>,
    fuel: nat,
    more: nat,
    n: nat,
)
    requires
        anc.no_duplicates(),
        forall|i: int| 0 <= i < anc.len() ==> (#[trigger] lookup(objs, anc[i])) is Some,
        forall|i: int| 0 <= i < anc.len() ==> visited.contains(#[trigger] anc[i]),
        fuel + anc.len() >= objs.len(),
        fuel <= more,
    ensures
        tree_kids(objs, style, cs, parent, visited, depth, limit, fuel, n) == tree_kids(
            objs,
            style,
            cs,
            parent,
            visited,
            depth,
            limit,
            more,
            n,
        ),
    decreases fuel, 1nat, n,
{
    if n > 0 {
        law_tree_kids_fuel(objs, style, cs, parent, visited, depth, limit, anc, fuel, more, (n - 1) as nat);
        let prev = tree_kids(objs, style, cs, parent, visited, depth, limit, fuel, (n - 1) as nat);
        lemma_kids_keep_visited(objs, style, cs, parent, visited, depth, limit, fuel, (n - 1) as nat);
        assert forall|i: int| 0 <= i < anc.len() implies prev.1.contains(#[trigger] anc[i]) by {
            assert(visited.contains(anc[i]));
        }
        law_tree_fuel(objs, style, cs[n - 1].1, cs[n - 1].0, parent, prev.1, depth, limit, anc, fuel, more);
    }
}

/// Walking from the trailer with one level per object shows the same tree
/// as walking with any more levels, that is, as a walk without a bound.
pub proof fn law_trailer_walk_complete(d: PdfDoc, style: TreeStyle, limit: Option<usize>, more: nat)
    requires
        more >= d.objects@.len(),
    ensures
        trailer_walk(d, style, limit) == ({
            let cs = entry_paths(d.trailer@, Seq::empty());
            tree_kids(d.objects@, style, cs, "trailer"@, Seq::empty(), 1, limit, more, cs.len()).0
        }),
{
    let cs = entry_paths(d.trailer@, Seq::empty());
    law_tree_kids_fuel(
        d.objects@,
        style,
        cs,
        "trailer"@,
        Seq::empty(),
        1,
        limit,
        Seq::empty(),
        d.objects@.len(),
        more,
        cs.len(),
    );
}

// ── The tree as JSON ─────────────────────────────────────────────────

pub open spec fn status_json(path: Seq<char>, r: ObjRef, status: Seq<char>) -> JsonV {
    JsonV::Object(
        seq![
            member("key"@, JsonV::Str(path)),
            member("object"@, JsonV::Str(id_text(r))),
            member("status"@, JsonV::Str(status)),
        ],
    )
}

/// The walk from one reference as a JSON node: `visited`,
/// `depth_limit_reached` or `missing` as its status, or else its label and
/// the nodes of the references it holds (below `fuel` levels, none; see
/// `law_tree_json_fuel`); with the ids shown afterwards.
pub open spec fn json_walk(
    objs: Seq<(ObjRef, PdfValue)>,
    r: ObjRef,
    path: Seq<char>,
    visited: Seq<ObjRef>,
    depth: nat,
    limit: Option<usize>,
    fuel: nat,
) -> (JsonV, Seq<ObjRef>)
    decreases fuel, 0nat, 0nat,
{
    if visited.contains(r) {
        (status_json(path, r, "visited"@), visited)
    } else if limit matches Some(m) && depth > m {
        (status_json(path, r, "depth_limit_reached"@), visited)
    } else {
        let v2 = visited.push(r);
        match get_object(objs, r) {
            Some(i) => {
                let kids = if fuel == 0 {
                    (Seq::empty(), v2)
                } else {
                    let cs = object_paths(objs[i].1);
                    json_kids(objs, cs, v2, depth + 1, limit, (fuel - 1) as nat, cs.len())
                };
                let base = seq![
                    member("key"@, JsonV::Str(path)),
                    member("object"@, JsonV::Str(id_text(r))),
                    member("label"@, JsonV::Str(node_label(objs[i].1))),
                ];
                (
                    JsonV::Object(
                        if kids.0.len() > 0 {
                            base + seq![member("children"@, JsonV::Array(kids.0))]
                        } else {
                            base
                        },
                    ),
                    kids.1,
                )
            },
            None => (status_json(path, r, "missing"@), v2),
        }
    }
}

/// The nodes of the first `n` references of `cs`, in turn.
pub open spec fn json_kids(
    objs: Seq<(ObjRef, PdfValue)>,
    cs: Seq<(Seq<char>, ObjRef)>,
    visited: Seq<ObjRef>,
    depth: nat,
    limit: Option<usize>,
    fuel: nat,
    n: nat,
) -> (Seq<JsonV>, Seq<ObjRef>)
    decreases fuel, 1nat, n,
{
    if n == 0 {
        (Seq::empty(), visited)
    } else {
        let prev = json_kids(objs, cs, visited, depth, limit, fuel, (n - 1) as nat);
        let w = json_walk(objs, cs[n - 1].1, cs[n - 1].0, prev.1, depth, limit, fuel);
        (prev.0.push(w.0), w.1)
    }
}

/// The reference tree as JSON: the trailer node and, below it, a node for
/// each reference reached depth first.
pub open spec fn tree_json(d: PdfDoc, limit: Option<usize>) -> JsonV {
    let cs = entry_paths(d.trailer@, Seq::empty());
    JsonV::Object(
        seq![
            member(
                "tree"@,
                JsonV::Object(
                    seq![
                        member("node"@, JsonV::Str("Trailer"@)),
                        member(
                            "children"@,
                            JsonV::Array(json_kids(d.objects@, cs, Seq::empty(), 1, limit, d.objects@.len(), cs.len()).0),
                        ),
                    ],
                ),
            ),
        ],
    )
}

fn status_node(path: &String, r: ObjRef, status: &str) -> (j: Json)
    ensures
        jv(j) == status_json(path@, r, status@),
{
    let mut ms: Vec<(String, Json)> = Vec::new();
    assert(jv_members(ms@) =~= Seq::<(Seq<char>, JsonV)>::empty());
    push_member(&mut ms, "key", Json::Str(text(path.as_str())));
    push_member(&mut ms, "object", Json::Str(id_string(r)));
    push_member(&mut ms, "status", Json::Str(text(status)));
    assert(jv_members(ms@) =~= seq![
        member("key"@, JsonV::Str(path@)),
        member("object"@, JsonV::Str(id_text(r))),
        member("status"@, JsonV::Str(status@)),
    ]);
    Json::Object(ms)
}

fn json_node(
    objs: &Vec<(ObjRef, PdfValue)>,
    r: ObjRef,
    path: &String,
    visited: &mut Vec<ObjRef>,
    depth: usize,
    limit: Option<usize>,
    fuel: usize,
) -> (j: Json)
    requires
        objects_sorted(objs@),
        depth + fuel < usize::MAX,
    ensures
        jv(j) == json_walk(objs@, r, path@, old(visited)@, depth as nat, limit, fuel as nat).0,
        final(visited)@ == json_walk(objs@, r, path@, old(visited)@, depth as nat, limit, fuel as nat).1,
    decreases fuel, 0nat, 0nat,
{
    if contains_ref(visited, r) {
        return status_node(path, r, "visited");
    }
    if let Some(m) = limit {
        if depth > m {
            return status_node(path, r, "depth_limit_reached");
        }
    }
    visited.push(r);
    match resolve_object(objs, r) {
        Some(i) => {
            let label = tree_node_label(&objs[i].1);
            let kids = if fuel > 0 {
                let cs = collect_refs_with_paths(&objs[i].1);
                json_children(objs, &cs, visited, depth + 1, limit, fuel - 1)
            } else {
                let k: Vec<Json> = Vec::new();
                assert(jv_items(k@) =~= Seq::<JsonV>::empty());
                k
            };
            let ghost kv = jv_items(kids@);
            proof {
                lemma_jv_items_len(kids@);
            }
            let mut ms: Vec<(String, Json)> = Vec::new();
            assert(jv_members(ms@) =~= Seq::<(Seq<char>, JsonV)>::empty());
            push_member(&mut ms, "key", Json::Str(text(path.as_str())));
            push_member(&mut ms, "object", Json::Str(id_string(r)));
            push_member(&mut ms, "label", Json::Str(label));
            let ghost base = jv_members(ms@);
            assert(base =~= seq![
                member("key"@, JsonV::Str(path@)),
                member("object"@, JsonV::Str(id_text(r))),
                member("label"@, JsonV::Str(node_label(objs@[i as int].1))),
            ]);
            if kids.len() > 0 {
                push_member(&mut ms, "children", Json::Array(kids));
                assert(jv_members(ms@) =~= base + seq![member("children"@, JsonV::Array(kv))]);
            }
            Json::Object(ms)
        },
        None => status_node(path, r, "missing"),
    }
}

fn json_children(
    objs: &Vec<(ObjRef, PdfValue)>,
    cs: &Vec<(String, ObjRef)>,
    visited: &mut Vec<ObjRef>,
    depth: usize,
    limit: Option<usize>,
    fuel: usize,
) -> (r: Vec<Json>)
    requires
        objects_sorted(objs@),
        depth + fuel < usize::MAX,
    ensures
        jv_items(r@) == json_kids(objs@, path_views(cs@), old(visited)@, depth as nat, limit, fuel as nat, cs@.len()).0,
        final(visited)@ == json_kids(objs@, path_views(cs@), old(visited)@, depth as nat, limit, fuel as nat, cs@.len()).1,
    decreases fuel, 1nat, 0nat,
{
    let ghost pv = path_views(cs@);
    let ghost v0 = visited@;
    let mut out: Vec<Json> = Vec::new();
    let mut k: usize = 0;
    assert(jv_items(out@) =~= Seq::<JsonV>::empty());
    while k < cs.len()
        invariant
            objects_sorted(objs@),
            depth + fuel < usize::MAX,
            k <= cs@.len(),
            pv == path_views(cs@),
            jv_items(out@) == json_kids(objs@, pv, v0, depth as nat, limit, fuel as nat, k as nat).0,
            visited@ == json_kids(objs@, pv, v0, depth as nat, limit, fuel as nat, k as nat).1,
        decreases cs.len() - k,
    {
        assert(pv[k as int] == (cs@[k as int].0@, cs@[k as int].1));
        let ghost before = out@;
        let j = json_node(objs, cs[k].1, &cs[k].0, visited, depth, limit, fuel);
        out.push(j);
        proof {
            lemma_jv_items_push(before, j);
        }
        k = k + 1;
    }
    out
}

/// The reference tree as JSON (see `tree_json`).
pub fn tree_json_value(doc: &PdfDoc, config: &DumpConfig) -> (r: Json)
    requires
        objects_sorted(doc.objects@),
        doc.objects@.len() + 1 < usize::MAX,
    ensures
        jv(r) == tree_json(*doc, config.depth),
{
    let cs = collect_refs_from_dict(&doc.trailer);
    let mut visited: Vec<ObjRef> = Vec::new();
    assert(visited@ =~= Seq::<ObjRef>::empty());
    let kids = json_children(&doc.objects, &cs, &mut visited, 1, config.depth, doc.objects.len());
    let ghost kv = jv_items(kids@);
    let mut inner: Vec<(String, Json)> = Vec::new();
    assert(jv_members(inner@) =~= Seq::<(Seq<char>, JsonV)>::empty());
    push_member(&mut inner, "node", Json::Str(text("Trailer")));
    push_member(&mut inner, "children", Json::Array(kids));
    assert(jv_members(inner@) =~= seq![member("node"@, JsonV::Str("Trailer"@)), member("children"@, JsonV::Array(kv))]);
    let ghost iv = jv_members(inner@);
    let mut ms: Vec<(String, Json)> = Vec::new();
    assert(jv_members(ms@) =~= Seq::<(Seq<char>, JsonV)>::empty());
    push_member(&mut ms, "tree", Json::Object(inner));
    assert(jv_members(ms@) =~= seq![member("tree"@, JsonV::Object(iv))]);
    Json::Object(ms)
}

} // verus!
