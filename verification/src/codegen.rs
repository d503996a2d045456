//! The declaration emitter: renders an extracted schema as a TypeScript type
//! declaration. One exported alias names the generic placeholder type; a
//! second exported alias lists every message with its `hasValue` flag, its
//! attribute map and its placeholder map, where each placeholder's type is
//! the union of its variant literals with the generic placeholder type.
//!
//! The exact text is pinned down by spec functions, so the rendering is a
//! function of the schema alone.

use vstd::prelude::*;
use vstd::string::StringExecFns;

use crate::parse::{
    AttributeModel,
    MessageModel,
    MessagesModel,
    ParsedAttribute,
    ParsedInlineExpr,
    ParsedMessage,
    ParsedMessages,
    PlaceholderModel,
};
use crate::util::{opt_views, views_of};

verus! {

// ---------------------------------------------------------------------------
// The declaration text, as a mathematical function of the schema.
// ---------------------------------------------------------------------------

/// A name wrapped in double quotes.
pub open spec fn quoted(s: Seq<char>) -> Seq<char> {
    "\""@ + s + "\""@
}

/// The text of a boolean literal.
pub open spec fn bool_text(b: bool) -> Seq<char> {
    if b {
        "true"@
    } else {
        "false"@
    }
}

/// The leading variant literals of a placeholder's union, each followed by
/// the union separator.
pub open spec fn variant_list_text(vs: Seq<Seq<char>>) -> Seq<char>
    decreases vs.len(),
{
    if vs.len() == 0 {
        Seq::empty()
    } else {
        quoted(vs[0]) + " | "@ + variant_list_text(vs.subrange(1, vs.len() as int))
    }
}

/// A placeholder's type: its variant literals (if any) united with the
/// generic placeholder type.
pub open spec fn union_text(v: Option<Seq<Seq<char>>>) -> Seq<char> {
    match v {
        None => "FluentPlaceholder"@,
        Some(vs) => variant_list_text(vs) + "FluentPlaceholder"@,
    }
}

/// One placeholder entry.
pub open spec fn placeholder_text(p: PlaceholderModel, ind: Seq<char>) -> Seq<char> {
    ind + quoted(p.name) + ": "@ + union_text(p.variants) + ";\n"@
}

/// A run of placeholder entries.
pub open spec fn placeholder_list_text(ps: Seq<PlaceholderModel>, ind: Seq<char>) -> Seq<char>
    decreases ps.len(),
{
    if ps.len() == 0 {
        Seq::empty()
    } else {
        placeholder_text(ps[0], ind) + placeholder_list_text(
            ps.subrange(1, ps.len() as int),
            ind,
        )
    }
}

/// A `placeholders` member: its entries between braces, empty when the
/// schema records none.
pub open spec fn placeholder_map_text(
    ps: Option<Seq<PlaceholderModel>>,
    outer: Seq<char>,
    inner: Seq<char>,
) -> Seq<char> {
    outer + "placeholders: {\n"@ + (match ps {
        None => Seq::empty(),
        Some(l) => placeholder_list_text(l, inner),
    }) + outer + "};\n"@
}

/// One attribute entry: its own placeholder map between braces.
pub open spec fn attribute_text(a: AttributeModel) -> Seq<char> {
    "      "@ + quoted(a.name) + ": {\n"@ + placeholder_map_text(
        a.placeholders,
        "        "@,
        "          "@,
    ) + "      "@ + "};\n"@
}

/// A run of attribute entries.
pub open spec fn attribute_list_text(s: Seq<AttributeModel>) -> Seq<char>
    decreases s.len(),
{
    if s.len() == 0 {
        Seq::empty()
    } else {
        attribute_text(s[0]) + attribute_list_text(s.subrange(1, s.len() as int))
    }
}

/// An `attributes` member: its entries between braces, empty when the
/// schema records none.
pub open spec fn attribute_map_text(attrs: Option<Seq<AttributeModel>>) -> Seq<char> {
    "    "@ + "attributes: {\n"@ + (match attrs {
        None => Seq::empty(),
        Some(l) => attribute_list_text(l),
    }) + "    "@ + "};\n"@
}

/// A `hasValue` member.
pub open spec fn has_value_text(b: bool) -> Seq<char> {
    "    "@ + "hasValue: "@ + bool_text(b) + ";\n"@
}

/// A run of documentation lines.
pub open spec fn comment_list_text(cs: Seq<Seq<char>>) -> Seq<char>
    decreases cs.len(),
{
    if cs.len() == 0 {
        Seq::empty()
    } else {
        "  // "@ + cs[0] + "\n"@ + comment_list_text(cs.subrange(1, cs.len() as int))
    }
}

/// The documentation lines of a message, rendered right above its entry.
pub open spec fn comments_text(c: Option<Seq<Seq<char>>>) -> Seq<char> {
    match c {
        None => Seq::empty(),
        Some(cs) => comment_list_text(cs),
    }
}

/// One message entry: its documentation, then its `hasValue` flag, its
/// attribute map and its placeholder map between braces.
pub open spec fn message_text(m: MessageModel) -> Seq<char> {
    comments_text(m.comments) + "  "@ + quoted(m.name) + ": {\n"@ + has_value_text(m.has_value)
        + attribute_map_text(m.attrs) + placeholder_map_text(m.placeholders, "    "@, "      "@)
        + "  "@ + "};\n"@
}

/// A run of message entries.
pub open spec fn message_list_text(s: Seq<MessageModel>) -> Seq<char>
    decreases s.len(),
{
    if s.len() == 0 {
        Seq::empty()
    } else {
        message_text(s[0]) + message_list_text(s.subrange(1, s.len() as int))
    }
}

/// The whole declaration: the generic placeholder alias, then the message
/// map alias.
pub open spec fn schema_text(r: MessagesModel) -> Seq<char> {
    "export type FluentPlaceholder = string | number | Date;\n"@
        + "export type Messages = {\n"@ + message_list_text(r.msgs) + "};\n"@
}

// ---------------------------------------------------------------------------
// The emitter, executable.
// ---------------------------------------------------------------------------

/// Wraps a name in double quotes.
pub fn quote_str(s: &str) -> (r: String)
    ensures
        r@ == quoted(s@),
{
    let mut out = String::new();
    out.append("\"");
    out.append(s);
    out.append("\"");
    proof {
        assert(out@ =~= quoted(s@));
    }
    out
}

/// Renders a placeholder's union type.
fn placeholder_union(v: &Option<Vec<String>>) -> (r: String)
    ensures
        r@ == union_text(opt_views(*v)),
{
    let mut out = String::new();
    match v {
        None => {},
        Some(vs) => {
            let ghost all = variant_list_text(views_of(vs@));
            let mut i: usize = 0;
            proof {
                assert(vs@.subrange(0, vs@.len() as int) =~= vs@);
                assert(views_of(vs@).subrange(0, views_of(vs@).len() as int) =~= views_of(
                    vs@,
                ));
                assert(out@ + all =~= all);
            }
            while i < vs.len()
                invariant
                    i <= vs.len(),
                    all == variant_list_text(views_of(vs@)),
                    out@ + variant_list_text(
                        views_of(vs@).subrange(i as int, vs@.len() as int),
                    ) == all,
                decreases vs.len() - i,
            {
                let ghost pre = out@;
                let ghost vd = views_of(vs@);
                let ghost rest = vd.subrange(i as int, vd.len() as int);
                let q = quote_str(vs[i].as_str());
                out.append(q.as_str());
                out.append(" | ");
                proof {
                    assert(rest[0] == vd[i as int]);
                    assert(vd[i as int] == vs@[i as int]@);
                    assert(rest.subrange(1, rest.len() as int) =~= vd.subrange(
                        i + 1 as int,
                        vd.len() as int,
                    ));
                    assert(out@ =~= pre + (quoted(vd[i as int]) + " | "@));
                    assert(out@ + variant_list_text(vd.subrange(i + 1 as int, vd.len() as int))
                        =~= all);
                }
                i = i + 1;
            }
            proof {
                assert(views_of(vs@).subrange(vs@.len() as int, vs@.len() as int).len() == 0);
                assert(out@ + Seq::<char>::empty() =~= out@);
                assert(out@ == all);
            }
        },
    }
    out.append("FluentPlaceholder");
    proof {
        assert(out@ =~= union_text(opt_views(*v)));
    }
    out
}

/// Renders one placeholder entry at the given indentation.
fn build_placeholder_map_member(ph: &ParsedInlineExpr, ind: &str) -> (r: String)
    ensures
        r@ == placeholder_text(ph@, ind@),
{
    let mut out = String::new();
    out.append(ind);
    let q = quote_str(ph.name.as_str());
    out.append(q.as_str());
    out.append(": ");
    let u = placeholder_union(&ph.variants);
    out.append(u.as_str());
    out.append(";\n");
    proof {
        assert(out@ =~= placeholder_text(ph@, ind@));
    }
    out
}

/// Renders a `placeholders` member with the given outer and inner
/// indentation.
fn build_placeholder_map(
    placeholders: &Option<Vec<ParsedInlineExpr>>,
    outer: &str,
    inner: &str,
) -> (r: String)
    ensures
        r@ == placeholder_map_text(opt_views(*placeholders), outer@, inner@),
{
    let mut out = String::new();
    out.append(outer);
    out.append("placeholders: {\n");
    match placeholders {
        None => {},
        Some(ps) => {
            let ghost base = out@;
            let ghost pd = views_of(ps@);
            let ghost all = placeholder_list_text(pd, inner@);
            let mut i: usize = 0;
            proof {
                assert(pd.subrange(0, pd.len() as int) =~= pd);
                assert(out@ + all =~= base + all);
            }
            while i < ps.len()
                invariant
                    i <= ps.len(),
                    pd == views_of(ps@),
                    all == placeholder_list_text(pd, inner@),
                    out@ + placeholder_list_text(
                        pd.subrange(i as int, pd.len() as int),
                        inner@,
                    ) == base + all,
                decreases ps.len() - i,
            {
                let ghost pre = out@;
                let ghost rest = pd.subrange(i as int, pd.len() as int);
                let e = build_placeholder_map_member(&ps[i], inner);
                out.append(e.as_str());
                proof {
                    assert(rest[0] == pd[i as int]);
                    assert(pd[i as int] == ps@[i as int]@);
                    assert(rest.subrange(1, rest.len() as int) =~= pd.subrange(
                        i + 1 as int,
                        pd.len() as int,
                    ));
                    assert(out@ + placeholder_list_text(
                        pd.subrange(i + 1 as int, pd.len() as int),
                        inner@,
                    ) =~= base + all);
                }
                i = i + 1;
            }
            proof {
                assert(pd.subrange(pd.len() as int, pd.len() as int).len() == 0);
                assert(out@ + Seq::<char>::empty() =~= out@);
                assert(out@ == base + all);
            }
        },
    }
    out.append(outer);
    out.append("};\n");
    proof {
        assert(out@ =~= placeholder_map_text(opt_views(*placeholders), outer@, inner@));
    }
    out
}

/// Renders one attribute entry.
fn build_attribute_map_member(attr: &ParsedAttribute) -> (r: String)
    ensures
        r@ == attribute_text(attr@),
{
    let mut out = String::new();
    out.append("      ");
    let q = quote_str(attr.name.as_str());
    out.append(q.as_str());
    out.append(": {\n");
    let p = build_placeholder_map(&attr.placeholders, "        ", "          ");
    out.append(p.as_str());
    out.append("      ");
    out.append("};\n");
    proof {
        assert(out@ =~= attribute_text(attr@));
    }
    out
}

/// Renders an `attributes` member.
fn build_attribute_map(attrs: &Option<Vec<ParsedAttribute>>) -> (r: String)
    ensures
        r@ == attribute_map_text(opt_views(*attrs)),
{
    let mut out = String::new();
    out.append("    ");
    out.append("attributes: {\n");
    match attrs {
        None => {},
        Some(list) => {
            let ghost base = out@;
            let ghost ad = views_of(list@);
            let ghost all = attribute_list_text(ad);
            let mut i: usize = 0;
            proof {
                assert(ad.subrange(0, ad.len() as int) =~= ad);
                assert(out@ + all =~= base + all);
            }
            while i < list.len()
                invariant
                    i <= list.len(),
                    ad == views_of(list@),
                    all == attribute_list_text(ad),
                    out@ + attribute_list_text(ad.subrange(i as int, ad.len() as int)) == base
                        + all,
                decreases list.len() - i,
            {
                let ghost pre = out@;
                let ghost rest = ad.subrange(i as int, ad.len() as int);
                let e = build_attribute_map_member(&list[i]);
                out.append(e.as_str());
                proof {
                    assert(rest[0] == ad[i as int]);
                    assert(ad[i as int] == list@[i as int]@);
                    assert(rest.subrange(1, rest.len() as int) =~= ad.subrange(
                        i + 1 as int,
                        ad.len() as int,
                    ));
                    assert(out@ + attribute_list_text(
                        ad.subrange(i + 1 as int, ad.len() as int),
                    ) =~= base + all);
                }
                i = i + 1;
            }
            proof {
                assert(ad.subrange(ad.len() as int, ad.len() as int).len() == 0);
                assert(out@ + Seq::<char>::empty() =~= out@);
                assert(out@ == base + all);
            }
        },
    }
    out.append("    ");
    out.append("};\n");
    proof {
        assert(out@ =~= attribute_map_text(opt_views(*attrs)));
    }
    out
}

/// Renders a `hasValue` member.
fn build_has_value_member(has_value: bool) -> (r: String)
    ensures
        r@ == has_value_text(has_value),
{
    let mut out = String::new();
    out.append("    ");
    out.append("hasValue: ");
    if has_value {
        out.append("true");
    } else {
        out.append("false");
    }
    out.append(";\n");
    proof {
        assert(out@ =~= has_value_text(has_value));
    }
    out
}

/// Renders a message's documentation lines.
fn build_comment_lines(comments: &Option<Vec<String>>) -> (r: String)
    ensures
        r@ == comments_text(opt_views(*comments)),
{
    let mut out = String::new();
    match comments {
        None => {},
        Some(cs) => {
            let ghost cd = views_of(cs@);
            let ghost all = comment_list_text(cd);
            let mut i: usize = 0;
            proof {
                assert(cd.subrange(0, cd.len() as int) =~= cd);
                assert(out@ + all =~= all);
            }
            while i < cs.len()
                invariant
                    i <= cs.len(),
                    cd == views_of(cs@),
                    all == comment_list_text(cd),
                    out@ + comment_list_text(cd.subrange(i as int, cd.len() as int)) == all,
                decreases cs.len() - i,
            {
                let ghost pre = out@;
                let ghost rest = cd.subrange(i as int, cd.len() as int);
                out.append("  // ");
                out.append(cs[i].as_str());
                out.append("\n");
                proof {
                    assert(rest[0] == cd[i as int]);
                    assert(cd[i as int] == cs@[i as int]@);
                    assert(rest.subrange(1, rest.len() as int) =~= cd.subrange(
                        i + 1 as int,
                        cd.len() as int,
                    ));
                    assert(out@ =~= pre + ("  // "@ + cd[i as int] + "\n"@));
                    assert(out@ + comment_list_text(cd.subrange(i + 1 as int, cd.len() as int))
                        =~= all);
                }
                i = i + 1;
            }
            proof {
                assert(cd.subrange(cd.len() as int, cd.len() as int).len() == 0);
                assert(out@ + Seq::<char>::empty() =~= out@);
                assert(out@ == all);
            }
        },
    }
    proof {
        assert(out@ =~= comments_text(opt_views(*comments)));
    }
    out
}

/// Renders one message entry.
fn build_message_member(msg: &ParsedMessage) -> (r: String)
    ensures
        r@ == message_text(msg@),
{
    let mut out = build_comment_lines(&msg.comments);
    out.append("  ");
    let q = quote_str(msg.name.as_str());
    out.append(q.as_str());
    out.append(": {\n");
    let hv = build_has_value_member(msg.has_value);
    out.append(hv.as_str());
    let am = build_attribute_map(&msg.attrs);
    out.append(am.as_str());
    let pm = build_placeholder_map(&msg.placeholders, "    ", "      ");
    out.append(pm.as_str());
    out.append("  ");
    out.append("};\n");
    proof {
        assert(out@ =~= message_text(msg@));
    }
    out
}

/// Renders the whole declaration for an extracted schema.
pub fn generate_ts(parsed: &ParsedMessages) -> (r: String)
    ensures
        r@ == schema_text(parsed@),
{
    let mut out = String::new();
    out.append("export type FluentPlaceholder = string | number | Date;\n");
    out.append("export type Messages = {\n");
    let ghost base = out@;
    let ghost md = views_of(parsed.msgs@);
    let ghost all = message_list_text(md);
    let mut i: usize = 0;
    proof {
        assert(md.subrange(0, md.len() as int) =~= md);
        assert(out@ + all =~= base + all);
    }
    while i < parsed.msgs.len()
        invariant
            i <= parsed.msgs.len(),
            md == views_of(parsed.msgs@),
            all == message_list_text(md),
            out@ + message_list_text(md.subrange(i as int, md.len() as int)) == base + all,
        decreases parsed.msgs.len() - i,
    {
        let ghost pre = out@;
        let ghost rest = md.subrange(i as int, md.len() as int);
        let e = build_message_member(&parsed.msgs[i]);
        out.append(e.as_str());
        proof {
            assert(rest[0] == md[i as int]);
            assert(md[i as int] == parsed.msgs@[i as int]@);
            assert(rest.subrange(1, rest.len() as int) =~= md.subrange(
                i + 1 as int,
                md.len() as int,
            ));
            assert(out@ + message_list_text(md.subrange(i + 1 as int, md.len() as int)) =~= base
                + all);
        }
        i = i + 1;
    }
    proof {
        assert(md.subrange(md.len() as int, md.len() as int).len() == 0);
        assert(out@ + Seq::<char>::empty() =~= out@);
        assert(out@ == base + all);
    }
    out.append("};\n");
    proof {
        assert(out@ =~= schema_text(parsed@));
    }
    out
}

} // verus!
