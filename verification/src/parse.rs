//! The schema extraction pass: walks a parsed resource tree and produces an
//! ordered, deduplicated collection of message schemas.
//!
//! Selector expressions go through variant inference: arm keys drawn entirely
//! from the generic plural categories constrain nothing, while any other key
//! set becomes a closed enumeration (with the `other` fallback stripped) and
//! is attached to the scrutinee's placeholder.

use vstd::prelude::*;

use crate::ast::{
    Attribute,
    CallArguments,
    Entry,
    Expression,
    InlineExpression,
    Message,
    NamedArgument,
    Pattern,
    PatternElement,
    Resource,
    Variant,
    VariantKey,
};
use crate::order::{key_le, lex_le, lower_of, str_eq, to_lower};
use crate::util::{
    lemma_views_of_concat,
    lemma_views_of_insert,
    lemma_views_of_push,
    lemma_views_of_subrange,
    opt_views,
    views_of,
};

verus! {

// ---------------------------------------------------------------------------
// The intermediate model: schemas as executable values, and their
// mathematical views.
// ---------------------------------------------------------------------------

/// One placeholder reference site: the referenced binding name and, when the
/// placeholder is scrutinised by a closed selector, its inferred variant keys.
#[derive(Debug, Clone)]
pub struct ParsedInlineExpr {
    pub name: String,
    pub variants: Option<Vec<String>>,
}

/// A named attribute of a message and the placeholders of its own pattern.
#[derive(Debug, Clone)]
pub struct ParsedAttribute {
    pub name: String,
    pub placeholders: Option<Vec<ParsedInlineExpr>>,
}

/// The schema of one message.
#[derive(Debug, Clone)]
pub struct ParsedMessage {
    pub name: String,
    pub comments: Option<Vec<String>>,
    pub placeholders: Option<Vec<ParsedInlineExpr>>,
    pub attrs: Option<Vec<ParsedAttribute>>,
    pub has_value: bool,
}

/// The root schema: all message schemas, sorted case-insensitively by name
/// and deduplicated.
#[derive(Debug, Clone)]
pub struct ParsedMessages {
    pub msgs: Vec<ParsedMessage>,
}

/// The mathematical value of a [`ParsedInlineExpr`].
pub ghost struct PlaceholderModel {
    pub name: Seq<char>,
    pub variants: Option<Seq<Seq<char>>>,
}

/// The mathematical value of a [`ParsedAttribute`].
pub ghost struct AttributeModel {
    pub name: Seq<char>,
    pub placeholders: Option<Seq<PlaceholderModel>>,
}

/// The mathematical value of a [`ParsedMessage`].
pub ghost struct MessageModel {
    pub name: Seq<char>,
    pub comments: Option<Seq<Seq<char>>>,
    pub placeholders: Option<Seq<PlaceholderModel>>,
    pub attrs: Option<Seq<AttributeModel>>,
    pub has_value: bool,
}

/// The mathematical value of a [`ParsedMessages`].
pub ghost struct MessagesModel {
    pub msgs: Seq<MessageModel>,
}

impl View for ParsedInlineExpr {
    type V = PlaceholderModel;

    open spec fn view(&self) -> PlaceholderModel {
        PlaceholderModel { name: self.name@, variants: opt_views(self.variants) }
    }
}

impl DeepView for ParsedInlineExpr {
    type V = PlaceholderModel;

    open spec fn deep_view(&self) -> PlaceholderModel {
        self.view()
    }
}

impl View for ParsedAttribute {
    type V = AttributeModel;

    open spec fn view(&self) -> AttributeModel {
        AttributeModel { name: self.name@, placeholders: opt_views(self.placeholders) }
    }
}

impl DeepView for ParsedAttribute {
    type V = AttributeModel;

    open spec fn deep_view(&self) -> AttributeModel {
        self.view()
    }
}

impl View for ParsedMessage {
    type V = MessageModel;

    open spec fn view(&self) -> MessageModel {
        MessageModel {
            name: self.name@,
            comments: opt_views(self.comments),
            placeholders: opt_views(self.placeholders),
            attrs: opt_views(self.attrs),
            has_value: self.has_value,
        }
    }
}

impl DeepView for ParsedMessage {
    type V = MessageModel;

    open spec fn deep_view(&self) -> MessageModel {
        self.view()
    }
}

impl View for ParsedMessages {
    type V = MessagesModel;

    open spec fn view(&self) -> MessagesModel {
        MessagesModel { msgs: views_of(self.msgs@) }
    }
}

// ---------------------------------------------------------------------------
// Variant inference.
// ---------------------------------------------------------------------------

/// The key of one variant arm: an identifier name or a number literal's
/// decimal text.
pub open spec fn key_of(k: VariantKey) -> Seq<char> {
    match k {
        VariantKey::Identifier { name } => name@,
        VariantKey::NumberLiteral { value } => value@,
    }
}

/// The arm keys of a selector, in arm order.
pub open spec fn keys_of(vars: Seq<Variant>) -> Seq<Seq<char>>
    decreases vars.len(),
{
    if vars.len() == 0 {
        Seq::empty()
    } else {
        seq![key_of(vars[0].key)] + keys_of(vars.subrange(1, vars.len() as int))
    }
}

/// Whether a key is one of the generic plural-category keys (the CLDR plural
/// names plus the exact-match literal `1`), which constrain nothing.
pub open spec fn is_generic_key(k: Seq<char>) -> bool {
    k == "1"@ || k == "one"@ || k == "two"@ || k == "few"@ || k == "many"@ || k == "other"@
}

/// Whether every key of a selector is generic.
pub open spec fn all_generic(keys: Seq<Seq<char>>) -> bool {
    forall|i: int| 0 <= i < keys.len() ==> is_generic_key(#[trigger] keys[i])
}

/// The keys with every literal `other` removed, order kept.
pub open spec fn remove_other(keys: Seq<Seq<char>>) -> Seq<Seq<char>>
    decreases keys.len(),
{
    if keys.len() == 0 {
        Seq::empty()
    } else {
        let rest = remove_other(keys.subrange(1, keys.len() as int));
        if keys[0] == "other"@ {
            rest
        } else {
            seq![keys[0]] + rest
        }
    }
}

/// Variant inference: generic selectors constrain nothing; any other key set
/// is kept as a closed enumeration with the `other` fallback stripped, or
/// dropped if the stripping empties it.
pub open spec fn infer_variants(keys: Seq<Seq<char>>) -> Option<Seq<Seq<char>>> {
    if all_generic(keys) {
        None
    } else {
        let kept = remove_other(keys);
        if kept.len() == 0 {
            None
        } else {
            Some(kept)
        }
    }
}

// ---------------------------------------------------------------------------
// The traversal, as a mathematical function of the tree.
// ---------------------------------------------------------------------------

/// The placeholders contributed by one inline expression, given the variant
/// set inferred for the enclosing selector (if any).
///
/// A nested placeable in inline position deliberately surfaces nothing, and
/// literals and bare references contribute nothing; a function call passes
/// the inbound variant set on to each of its arguments.
pub open spec fn spec_inline(e: InlineExpression, v: Option<Seq<Seq<char>>>) -> Seq<
    PlaceholderModel,
>
    decreases e,
{
    match e {
        InlineExpression::VariableReference { name } => seq![
            PlaceholderModel { name: name@, variants: v },
        ],
        InlineExpression::FunctionReference { name: _, arguments } => spec_args_positional(
            arguments.positional@,
            v,
        ) + spec_args_named(arguments.named@, v),
        _ => Seq::empty(),
    }
}

/// The placeholders of a call's positional arguments, in order.
pub open spec fn spec_args_positional(
    s: Seq<InlineExpression>,
    v: Option<Seq<Seq<char>>>,
) -> Seq<PlaceholderModel>
    decreases s,
{
    if s.len() == 0 {
        Seq::empty()
    } else {
        spec_inline(s[0], v) + spec_args_positional(s.subrange(1, s.len() as int), v)
    }
}

/// The placeholders of a call's named arguments' values, in order.
pub open spec fn spec_args_named(s: Seq<NamedArgument>, v: Option<Seq<Seq<char>>>) -> Seq<
    PlaceholderModel,
>
    decreases s,
{
    if s.len() == 0 {
        Seq::empty()
    } else {
        spec_inline(s[0].value, v) + spec_args_named(s.subrange(1, s.len() as int), v)
    }
}

/// The placeholders of a placeable's expression: a selector first infers its
/// variant set and hands it to its scrutinee; a plain inline expression gets
/// none.
pub open spec fn spec_expression(e: Expression) -> Seq<PlaceholderModel> {
    match e {
        Expression::Select { selector, variants } => spec_inline(
            selector,
            infer_variants(keys_of(variants@)),
        ),
        Expression::Inline(inl) => spec_inline(inl, None),
    }
}

/// The placeholders of one pattern element: free text contributes nothing.
pub open spec fn spec_element(e: PatternElement) -> Seq<PlaceholderModel> {
    match e {
        PatternElement::Placeable { expression } => spec_expression(expression),
        PatternElement::TextElement { value: _ } => Seq::empty(),
    }
}

/// The placeholders of a sequence of pattern elements, in order.
pub open spec fn spec_elements(s: Seq<PatternElement>) -> Seq<PlaceholderModel>
    decreases s.len(),
{
    if s.len() == 0 {
        Seq::empty()
    } else {
        spec_element(s[0]) + spec_elements(s.subrange(1, s.len() as int))
    }
}

/// The placeholders referenced by a pattern.
pub open spec fn spec_pattern(p: Pattern) -> Seq<PlaceholderModel> {
    spec_elements(p.elements@)
}

/// The schema of one attribute: its own pattern's placeholders, absent when
/// there are none.
pub open spec fn spec_attribute(a: Attribute) -> AttributeModel {
    let p = spec_pattern(a.value);
    AttributeModel { name: a.name@, placeholders: if p.len() == 0 { None } else { Some(p) } }
}

/// The schemas of a message's attributes, in order.
pub open spec fn spec_attributes(s: Seq<Attribute>) -> Seq<AttributeModel>
    decreases s.len(),
{
    if s.len() == 0 {
        Seq::empty()
    } else {
        seq![spec_attribute(s[0])] + spec_attributes(s.subrange(1, s.len() as int))
    }
}

/// The schema of one message. A message without a default pattern has no
/// value, no pattern-derived placeholders and no comments; attributes are
/// recorded only when at least one is present.
pub open spec fn spec_message(m: Message) -> MessageModel {
    MessageModel {
        name: m.name@,
        comments: match m.value {
            Some(_) => opt_views(m.comment),
            None => None,
        },
        placeholders: match m.value {
            Some(p) => Some(spec_pattern(p)),
            None => None,
        },
        attrs: if m.attributes@.len() == 0 {
            None
        } else {
            Some(spec_attributes(m.attributes@))
        },
        has_value: m.value is Some,
    }
}

/// The message schemas of a resource's entries, in source order; entries
/// other than messages contribute nothing.
pub open spec fn spec_collect(body: Seq<Entry>) -> Seq<MessageModel>
    decreases body.len(),
{
    if body.len() == 0 {
        Seq::empty()
    } else {
        let rest = spec_collect(body.subrange(1, body.len() as int));
        match body[0] {
            Entry::Message(m) => seq![spec_message(m)] + rest,
            _ => rest,
        }
    }
}

// ---------------------------------------------------------------------------
// The traversal, executable.
// ---------------------------------------------------------------------------

/// Copies an optional list of strings.
fn clone_opt_strings(v: &Option<Vec<String>>) -> (r: Option<Vec<String>>)
    ensures
        opt_views(r) == opt_views(*v),
{
    match v {
        None => None,
        Some(vs) => {
            let mut out: Vec<String> = Vec::new();
            let mut i: usize = 0;
            while i < vs.len()
                invariant
                    i <= vs.len(),
                    out@ == vs@.subrange(0, i as int),
                decreases vs.len() - i,
            {
                out.push(vs[i].clone());
                proof {
                    assert(out@ =~= vs@.subrange(0, i + 1 as int));
                }
                i = i + 1;
            }
            proof {
                assert(vs@.subrange(0, vs@.len() as int) =~= vs@);
            }
            Some(out)
        },
    }
}

/// Whether a key is one of the generic plural-category keys.
fn is_generic(k: &str) -> (r: bool)
    ensures
        r == is_generic_key(k@),
{
    str_eq(k, "1") || str_eq(k, "one") || str_eq(k, "two") || str_eq(k, "few") || str_eq(
        k,
        "many",
    ) || str_eq(k, "other")
}

/// Collects a selector's arm keys and runs variant inference over them.
fn walk_variant(vars: &Vec<Variant>) -> (r: Option<Vec<String>>)
    ensures
        opt_views(r) == infer_variants(keys_of(vars@)),
{
    let ghost all = keys_of(vars@);
    let mut keys: Vec<String> = Vec::new();
    proof {
        assert(vars@.subrange(0, vars@.len() as int) =~= vars@);
        assert(views_of(keys@) =~= Seq::<Seq<char>>::empty());
        assert(views_of(keys@) + all =~= all);
    }
    let mut i: usize = 0;
    while i < vars.len()
        invariant
            i <= vars.len(),
            all == keys_of(vars@),
            views_of(keys@) + keys_of(vars@.subrange(i as int, vars@.len() as int)) == all,
        decreases vars.len() - i,
    {
        let ghost pre = keys@;
        let ghost rest = vars@.subrange(i as int, vars@.len() as int);
        let k: String = match &vars[i].key {
            VariantKey::Identifier { name } => name.clone(),
            VariantKey::NumberLiteral { value } => value.clone(),
        };
        keys.push(k);
        proof {
            lemma_views_of_push(pre, keys@[pre.len() as int]);
            assert(rest.subrange(1, rest.len() as int) =~= vars@.subrange(
                i + 1 as int,
                vars@.len() as int,
            ));
            assert(rest[0] == vars@[i as int]);
            assert(views_of(keys@) =~= views_of(pre).push(key_of(vars@[i as int].key)));
            assert(views_of(keys@) + keys_of(vars@.subrange(i + 1 as int, vars@.len() as int))
                =~= all);
        }
        i = i + 1;
    }
    proof {
        assert(vars@.subrange(vars@.len() as int, vars@.len() as int).len() == 0);
        assert(views_of(keys@) + Seq::<Seq<char>>::empty() =~= views_of(keys@));
        assert(views_of(keys@) == all);
    }
    let mut allg = true;
    let mut j: usize = 0;
    while j < keys.len()
        invariant
            j <= keys.len(),
            views_of(keys@) == all,
            allg == (forall|k: int| 0 <= k < j ==> is_generic_key(#[trigger] all[k])),
        decreases keys.len() - j,
    {
        let g = is_generic(keys[j].as_str());
        proof {
            assert(all[j as int] == keys@[j as int]@);
        }
        allg = allg && g;
        j = j + 1;
    }
    if allg {
        assert(all_generic(all));
        return None;
    }
    let mut kept: Vec<String> = Vec::new();
    proof {
        assert(all.subrange(0, all.len() as int) =~= all);
        assert(views_of(kept@) =~= Seq::<Seq<char>>::empty());
        assert(views_of(kept@) + remove_other(all) =~= remove_other(all));
    }
    let mut j: usize = 0;
    while j < keys.len()
        invariant
            j <= keys.len(),
            views_of(keys@) == all,
            views_of(kept@) + remove_other(all.subrange(j as int, all.len() as int))
                == remove_other(all),
        decreases keys.len() - j,
    {
        let ghost pre = kept@;
        let ghost rest = all.subrange(j as int, all.len() as int);
        proof {
            assert(rest[0] == all[j as int]);
            assert(rest.subrange(1, rest.len() as int) =~= all.subrange(
                j + 1 as int,
                all.len() as int,
            ));
        }
        if !str_eq(keys[j].as_str(), "other") {
            kept.push(keys[j].clone());
            proof {
                lemma_views_of_push(pre, kept@[pre.len() as int]);
                assert(views_of(kept@) =~= views_of(pre).push(all[j as int]));
                assert(views_of(kept@) + remove_other(
                    all.subrange(j + 1 as int, all.len() as int),
                ) =~= remove_other(all));
            }
        }
        j = j + 1;
    }
    proof {
        assert(all.subrange(all.len() as int, all.len() as int).len() == 0);
        assert(views_of(kept@) + Seq::<Seq<char>>::empty() =~= views_of(kept@));
        assert(views_of(kept@) == remove_other(all));
        assert(!all_generic(all));
    }
    if kept.len() == 0 {
        None
    } else {
        Some(kept)
    }
}

/// Walks one inline expression, emitting a placeholder for a variable
/// reference and recursing through a call's arguments; a nested placeable
/// surfaces nothing by design.
fn walk_inline_expr(expr: &InlineExpression, variants: Option<Vec<String>>) -> (r: Vec<
    ParsedInlineExpr,
>)
    ensures
        views_of(r@) == spec_inline(*expr, opt_views(variants)),
    decreases *expr,
{
    match expr {
        InlineExpression::VariableReference { name } => {
            let mut out: Vec<ParsedInlineExpr> = Vec::new();
            out.push(ParsedInlineExpr { name: name.clone(), variants });
            proof {
                assert(views_of(out@) =~= spec_inline(*expr, opt_views(variants)));
            }
            out
        },
        InlineExpression::FunctionReference { name: _, arguments } => walk_arguments(
            arguments,
            variants,
        ),
        _ => {
            let out: Vec<ParsedInlineExpr> = Vec::new();
            proof {
                assert(views_of(out@) =~= spec_inline(*expr, opt_views(variants)));
            }
            out
        },
    }
}

/// Walks every positional and named argument of a call, each receiving its
/// own copy of the inbound variant set.
fn walk_arguments(args: &CallArguments, variants: Option<Vec<String>>) -> (r: Vec<
    ParsedInlineExpr,
>)
    ensures
        views_of(r@) == spec_args_positional(args.positional@, opt_views(variants))
            + spec_args_named(args.named@, opt_views(variants)),
    decreases *args,
{
    let ghost v = opt_views(variants);
    let ghost pos_all = spec_args_positional(args.positional@, v);
    let mut out: Vec<ParsedInlineExpr> = Vec::new();
    proof {
        assert(args.positional@.subrange(0, args.positional@.len() as int)
            =~= args.positional@);
        assert(views_of(out@) =~= Seq::<PlaceholderModel>::empty());
        assert(views_of(out@) + pos_all =~= pos_all);
    }
    let mut i: usize = 0;
    while i < args.positional.len()
        invariant
            i <= args.positional.len(),
            v == opt_views(variants),
            pos_all == spec_args_positional(args.positional@, v),
            views_of(out@) + spec_args_positional(
                args.positional@.subrange(i as int, args.positional@.len() as int),
                v,
            ) == pos_all,
        decreases args.positional.len() - i,
    {
        let ghost pre = out@;
        let ghost rest = args.positional@.subrange(i as int, args.positional@.len() as int);
        let vc = clone_opt_strings(&variants);
        let mut e = walk_inline_expr(&args.positional[i], vc);
        let ghost added = e@;
        out.append(&mut e);
        proof {
            assert(rest[0] == args.positional@[i as int]);
            assert(rest.subrange(1, rest.len() as int) =~= args.positional@.subrange(
                i + 1 as int,
                args.positional@.len() as int,
            ));
            lemma_views_of_concat(pre, added);
            assert(views_of(out@) =~= views_of(pre) + views_of(added));
            assert(views_of(out@) + spec_args_positional(
                args.positional@.subrange(i + 1 as int, args.positional@.len() as int),
                v,
            ) =~= pos_all);
        }
        i = i + 1;
    }
    proof {
        assert(args.positional@.subrange(
            args.positional@.len() as int,
            args.positional@.len() as int,
        ).len() == 0);
        assert(views_of(out@) + Seq::<PlaceholderModel>::empty() =~= views_of(out@));
        assert(views_of(out@) == pos_all);
    }
    let ghost named_all = spec_args_named(args.named@, v);
    proof {
        assert(args.named@.subrange(0, args.named@.len() as int) =~= args.named@);
        assert(views_of(out@) + named_all =~= pos_all + named_all);
    }
    let mut i: usize = 0;
    while i < args.named.len()
        invariant
            i <= args.named.len(),
            v == opt_views(variants),
            named_all == spec_args_named(args.named@, v),
            views_of(out@) + spec_args_named(
                args.named@.subrange(i as int, args.named@.len() as int),
                v,
            ) == pos_all + named_all,
        decreases args.named.len() - i,
    {
        let ghost pre = out@;
        let ghost rest = args.named@.subrange(i as int, args.named@.len() as int);
        let vc = clone_opt_strings(&variants);
        let mut e = walk_inline_expr(&args.named[i].value, vc);
        let ghost added = e@;
        out.append(&mut e);
        proof {
            assert(rest[0] == args.named@[i as int]);
            assert(rest.subrange(1, rest.len() as int) =~= args.named@.subrange(
                i + 1 as int,
                args.named@.len() as int,
            ));
            lemma_views_of_concat(pre, added);
            assert(views_of(out@) =~= views_of(pre) + views_of(added));
            assert(views_of(out@) + spec_args_named(
                args.named@.subrange(i + 1 as int, args.named@.len() as int),
                v,
            ) =~= pos_all + named_all);
        }
        i = i + 1;
    }
    proof {
        assert(args.named@.subrange(args.named@.len() as int, args.named@.len() as int).len()
            == 0);
        assert(views_of(out@) + Seq::<PlaceholderModel>::empty() =~= views_of(out@));
        assert(views_of(out@) == pos_all + named_all);
    }
    out
}

/// Walks a placeable's expression: a selector first infers its variant set
/// from its arms, then hands it to its scrutinee.
fn walk_placeable_expression(expr: &Expression) -> (r: Vec<ParsedInlineExpr>)
    ensures
        views_of(r@) == spec_expression(*expr),
{
    match expr {
        Expression::Select { selector, variants } => {
            let v = walk_variant(variants);
            walk_inline_expr(selector, v)
        },
        Expression::Inline(inl) => walk_inline_expr(inl, None),
    }
}

/// Walks a pattern, collecting the placeholders of its placeable elements in
/// order; free text contributes nothing.
fn walk_pattern(pattern: &Pattern) -> (r: Vec<ParsedInlineExpr>)
    ensures
        views_of(r@) == spec_pattern(*pattern),
{
    let ghost all = spec_elements(pattern.elements@);
    let mut out: Vec<ParsedInlineExpr> = Vec::new();
    proof {
        assert(pattern.elements@.subrange(0, pattern.elements@.len() as int)
            =~= pattern.elements@);
        assert(views_of(out@) =~= Seq::<PlaceholderModel>::empty());
        assert(views_of(out@) + all =~= all);
    }
    let mut i: usize = 0;
    while i < pattern.elements.len()
        invariant
            i <= pattern.elements.len(),
            all == spec_elements(pattern.elements@),
            views_of(out@) + spec_elements(
                pattern.elements@.subrange(i as int, pattern.elements@.len() as int),
            ) == all,
        decreases pattern.elements.len() - i,
    {
        let ghost pre = out@;
        let ghost rest = pattern.elements@.subrange(i as int, pattern.elements@.len() as int);
        proof {
            assert(rest[0] == pattern.elements@[i as int]);
            assert(rest.subrange(1, rest.len() as int) =~= pattern.elements@.subrange(
                i + 1 as int,
                pattern.elements@.len() as int,
            ));
        }
        match &pattern.elements[i] {
            PatternElement::Placeable { expression } => {
                let mut e = walk_placeable_expression(expression);
                let ghost added = e@;
                out.append(&mut e);
                proof {
                    lemma_views_of_concat(pre, added);
                    assert(views_of(out@) =~= views_of(pre) + views_of(added));
                    assert(views_of(out@) + spec_elements(
                        pattern.elements@.subrange(i + 1 as int, pattern.elements@.len() as int),
                    ) =~= all);
                }
            },
            _ => {
                proof {
                    assert(views_of(out@) + spec_elements(
                        pattern.elements@.subrange(i + 1 as int, pattern.elements@.len() as int),
                    ) =~= all);
                }
            },
        }
        i = i + 1;
    }
    proof {
        assert(pattern.elements@.subrange(
            pattern.elements@.len() as int,
            pattern.elements@.len() as int,
        ).len() == 0);
        assert(views_of(out@) + Seq::<PlaceholderModel>::empty() =~= views_of(out@));
        assert(views_of(out@) == all);
    }
    out
}

/// Builds the schema of one message: its own pattern's placeholders, its
/// comments (only when it has a value), and one schema per attribute.
fn build_message(msg: &Message) -> (r: ParsedMessage)
    ensures
        r@ == spec_message(*msg),
{
    let mut comments: Option<Vec<String>> = None;
    let mut placeholders: Option<Vec<ParsedInlineExpr>> = None;
    let mut has_value = false;
    match &msg.value {
        Some(pat) => {
            let p = walk_pattern(pat);
            comments = clone_opt_strings(&msg.comment);
            placeholders = Some(p);
            has_value = true;
        },
        None => {},
    }
    let ghost attrs_all = spec_attributes(msg.attributes@);
    let mut attrs_vec: Vec<ParsedAttribute> = Vec::new();
    proof {
        assert(msg.attributes@.subrange(0, msg.attributes@.len() as int)
            =~= msg.attributes@);
        assert(views_of(attrs_vec@) =~= Seq::<AttributeModel>::empty());
        assert(views_of(attrs_vec@) + attrs_all =~= attrs_all);
    }
    let mut i: usize = 0;
    while i < msg.attributes.len()
        invariant
            i <= msg.attributes.len(),
            attrs_all == spec_attributes(msg.attributes@),
            views_of(attrs_vec@) + spec_attributes(
                msg.attributes@.subrange(i as int, msg.attributes@.len() as int),
            ) == attrs_all,
        decreases msg.attributes.len() - i,
    {
        let ghost pre = attrs_vec@;
        let ghost rest = msg.attributes@.subrange(i as int, msg.attributes@.len() as int);
        let a = &msg.attributes[i];
        let p = walk_pattern(&a.value);
        let parsed = ParsedAttribute {
            name: a.name.clone(),
            placeholders: if p.len() == 0 {
                None
            } else {
                Some(p)
            },
        };
        attrs_vec.push(parsed);
        proof {
            assert(rest[0] == msg.attributes@[i as int]);
            assert(rest.subrange(1, rest.len() as int) =~= msg.attributes@.subrange(
                i + 1 as int,
                msg.attributes@.len() as int,
            ));
            lemma_views_of_push(pre, attrs_vec@[pre.len() as int]);
            assert(attrs_vec@[pre.len() as int]@ == spec_attribute(msg.attributes@[i as int]));
            assert(views_of(attrs_vec@) =~= views_of(pre).push(
                spec_attribute(msg.attributes@[i as int]),
            ));
            assert(views_of(attrs_vec@) + spec_attributes(
                msg.attributes@.subrange(i + 1 as int, msg.attributes@.len() as int),
            ) =~= attrs_all);
        }
        i = i + 1;
    }
    proof {
        assert(msg.attributes@.subrange(
            msg.attributes@.len() as int,
            msg.attributes@.len() as int,
        ).len() == 0);
        assert(views_of(attrs_vec@) + Seq::<AttributeModel>::empty() =~= views_of(attrs_vec@));
        assert(views_of(attrs_vec@) == attrs_all);
    }
    let attrs: Option<Vec<ParsedAttribute>> = if attrs_vec.len() == 0 {
        None
    } else {
        Some(attrs_vec)
    };
    ParsedMessage { name: msg.name.clone(), comments, placeholders, attrs, has_value }
}


// ---------------------------------------------------------------------------
// Ordering and deduplication.
// ---------------------------------------------------------------------------

/// The sort key of a message schema: its name folded to lowercase.
pub open spec fn msg_key(m: MessageModel) -> Seq<char> {
    lower_of(m.name)
}

/// Insertion of a schema into a run, after every schema whose key is at or
/// below its own — so schemas with equal keys keep their existing order.
pub open spec fn insert_sorted(s: Seq<MessageModel>, m: MessageModel) -> Seq<MessageModel>
    decreases s.len(),
{
    if s.len() == 0 {
        seq![m]
    } else if key_le(msg_key(s[0]), msg_key(m)) {
        seq![s[0]] + insert_sorted(s.subrange(1, s.len() as int), m)
    } else {
        seq![m] + s
    }
}

/// Stable insertion sort by case-insensitive name.
pub open spec fn sort_msgs(s: Seq<MessageModel>) -> Seq<MessageModel>
    decreases s.len(),
{
    if s.len() == 0 {
        Seq::empty()
    } else {
        insert_sorted(sort_msgs(s.subrange(0, s.len() - 1)), s[s.len() - 1])
    }
}

/// What remains of a run of schemas after dropping every schema whose key
/// equals the key of the nearest kept schema before it; `prev` is the key of
/// the schema kept last.
pub open spec fn dedup_from(s: Seq<MessageModel>, prev: Seq<char>) -> Seq<MessageModel>
    decreases s.len(),
{
    if s.len() == 0 {
        Seq::empty()
    } else if msg_key(s[0]) == prev {
        dedup_from(s.subrange(1, s.len() as int), prev)
    } else {
        seq![s[0]] + dedup_from(s.subrange(1, s.len() as int), msg_key(s[0]))
    }
}

/// Deduplication by case-insensitive name, keeping the first schema of every
/// run of equal keys.
pub open spec fn dedup_msgs(s: Seq<MessageModel>) -> Seq<MessageModel> {
    if s.len() == 0 {
        Seq::empty()
    } else {
        seq![s[0]] + dedup_from(s.subrange(1, s.len() as int), msg_key(s[0]))
    }
}

/// The full extraction: collect message schemas in source order, sort them
/// case-insensitively by name, and keep the first of any colliding names.
pub open spec fn spec_resource(res: Resource) -> MessagesModel {
    MessagesModel { msgs: dedup_msgs(sort_msgs(spec_collect(res.body@))) }
}

/// Whether `a` orders at or before `b` by case-insensitive name.
fn msg_le(a: &ParsedMessage, b: &ParsedMessage) -> (r: bool)
    ensures
        r == key_le(msg_key(a@), msg_key(b@)),
{
    let la = to_lower(a.name.as_str());
    let lb = to_lower(b.name.as_str());
    lex_le(la.as_str(), lb.as_str())
}

/// The position at which `m` is inserted into `r`: after every schema whose
/// key is at or below its own.
fn find_insert_pos(r: &Vec<ParsedMessage>, m: &ParsedMessage) -> (j: usize)
    ensures
        j <= r@.len(),
        insert_sorted(views_of(r@), m@) == views_of(r@).subrange(0, j as int) + seq![m@]
            + views_of(r@).subrange(j as int, r@.len() as int),
{
    let ghost rd = views_of(r@);
    let ghost md = m@;
    let mut j: usize = 0;
    proof {
        assert(rd.subrange(0, rd.len() as int) =~= rd);
        assert(rd.subrange(0, 0).len() == 0);
        assert(rd.subrange(0, 0) + insert_sorted(rd, md) =~= insert_sorted(rd, md));
    }
    loop
        invariant
            j <= r@.len(),
            rd == views_of(r@),
            md == m@,
            insert_sorted(rd, md) == rd.subrange(0, j as int) + insert_sorted(
                rd.subrange(j as int, rd.len() as int),
                md,
            ),
        decreases r@.len() - j,
    {
        let ghost rest = rd.subrange(j as int, rd.len() as int);
        if j == r.len() {
            proof {
                assert(rest.len() == 0);
                assert(insert_sorted(rest, md) =~= seq![md]);
                assert(rd.subrange(0, j as int) + seq![md] + rd.subrange(
                    j as int,
                    rd.len() as int,
                ) =~= rd.subrange(0, j as int) + insert_sorted(rest, md));
            }
            return j;
        }
        proof {
            assert(rest[0] == rd[j as int]);
            assert(rd[j as int] == r@[j as int]@);
        }
        if msg_le(&r[j], m) {
            proof {
                assert(rest.subrange(1, rest.len() as int) =~= rd.subrange(
                    j + 1 as int,
                    rd.len() as int,
                ));
                assert(insert_sorted(rest, md) == seq![rest[0]] + insert_sorted(
                    rd.subrange(j + 1 as int, rd.len() as int),
                    md,
                ));
                assert(rd.subrange(0, j as int) + (seq![rest[0]] + insert_sorted(
                    rd.subrange(j + 1 as int, rd.len() as int),
                    md,
                )) =~= rd.subrange(0, j + 1 as int) + insert_sorted(
                    rd.subrange(j + 1 as int, rd.len() as int),
                    md,
                ));
            }
            j = j + 1;
        } else {
            proof {
                assert(insert_sorted(rest, md) == seq![md] + rest);
                assert(rd.subrange(0, j as int) + (seq![md] + rest) =~= rd.subrange(
                    0,
                    j as int,
                ) + seq![md] + rd.subrange(j as int, rd.len() as int));
            }
            return j;
        }
    }
}

/// Sorts message schemas by case-insensitive name, keeping the source order
/// of schemas whose names collide.
fn sort_messages(msgs: Vec<ParsedMessage>) -> (r: Vec<ParsedMessage>)
    ensures
        views_of(r@) == sort_msgs(views_of(msgs@)),
{
    let ghost orig = views_of(msgs@);
    let mut rem = msgs;
    let mut r: Vec<ParsedMessage> = Vec::new();
    proof {
        assert(views_of(rem@) =~= orig.subrange(0, orig.len() as int));
        assert(orig.subrange(0, 0).len() == 0);
        assert(views_of(r@) =~= sort_msgs(orig.subrange(0, 0)));
    }
    while rem.len() > 0
        invariant
            rem@.len() <= orig.len(),
            orig == views_of(msgs@),
            views_of(rem@) == orig.subrange(
                orig.len() - rem@.len(),
                orig.len() as int,
            ),
            views_of(r@) == sort_msgs(orig.subrange(0, orig.len() - rem@.len())),
        decreases rem@.len(),
    {
        let ghost k = orig.len() - rem@.len();
        let ghost rem_pre = rem@;
        let m = rem.remove(0);
        proof {
            assert(rem_pre.remove(0) =~= rem_pre.subrange(1, rem_pre.len() as int));
            lemma_views_of_subrange(rem_pre, 1, rem_pre.len() as int);
            assert(views_of(rem@) =~= views_of(rem_pre).subrange(1, views_of(rem_pre).len() as int));
            assert(views_of(rem@) =~= orig.subrange(k + 1, orig.len() as int));
            assert(m@ == views_of(rem_pre)[0]);
            assert(m@ == orig[k as int]);
        }
        let ghost r_pre = r@;
        let j = find_insert_pos(&r, &m);
        r.insert(j, m);
        proof {
            lemma_views_of_insert(r_pre, j as int, m);
            assert(views_of(r@) =~= views_of(r_pre).insert(j as int, m@));
            assert(views_of(r_pre).insert(j as int, m@) =~= views_of(r_pre).subrange(
                0,
                j as int,
            ) + seq![m@] + views_of(r_pre).subrange(j as int, views_of(r_pre).len() as int));
            assert(views_of(r@) == insert_sorted(sort_msgs(orig.subrange(0, k)), m@));
            assert(orig.subrange(0, k + 1).subrange(0, k) =~= orig.subrange(0, k));
            assert(orig.subrange(0, k + 1)[k] == orig[k as int]);
            assert(sort_msgs(orig.subrange(0, k + 1)) == insert_sorted(
                sort_msgs(orig.subrange(0, k)),
                orig[k as int],
            ));
        }
    }
    proof {
        assert(orig.subrange(0, orig.len() as int) =~= orig);
    }
    r
}

/// Drops every schema whose case-insensitive name equals that of the nearest
/// kept schema before it.
fn dedup_messages(msgs: Vec<ParsedMessage>) -> (r: Vec<ParsedMessage>)
    ensures
        views_of(r@) == dedup_msgs(views_of(msgs@)),
{
    let ghost orig = views_of(msgs@);
    let mut rem = msgs;
    let mut out: Vec<ParsedMessage> = Vec::new();
    if rem.len() == 0 {
        proof {
            assert(views_of(out@) =~= dedup_msgs(orig));
        }
        return out;
    }
    let ghost rem_pre = rem@;
    let first = rem.remove(0);
    let mut lastkey = to_lower(first.name.as_str());
    out.push(first);
    proof {
        assert(rem_pre.remove(0) =~= rem_pre.subrange(1, rem_pre.len() as int));
        lemma_views_of_subrange(rem_pre, 1, rem_pre.len() as int);
        assert(views_of(rem@) =~= orig.subrange(1, orig.len() as int));
        assert(out@[0]@ == orig[0]);
        assert(views_of(out@) =~= seq![orig[0]]);
        assert(lastkey@ == msg_key(orig[0]));
        assert(views_of(out@) + dedup_from(orig.subrange(1, orig.len() as int), lastkey@)
            =~= dedup_msgs(orig));
    }
    while rem.len() > 0
        invariant
            rem@.len() < orig.len(),
            orig == views_of(msgs@),
            views_of(rem@) == orig.subrange(
                orig.len() - rem@.len(),
                orig.len() as int,
            ),
            views_of(out@) + dedup_from(
                orig.subrange(orig.len() - rem@.len(), orig.len() as int),
                lastkey@,
            ) == dedup_msgs(orig),
        decreases rem@.len(),
    {
        let ghost k = orig.len() - rem@.len();
        let ghost rest = orig.subrange(k, orig.len() as int);
        let ghost rem_pre = rem@;
        let ghost prev = lastkey@;
        let m = rem.remove(0);
        let mk = to_lower(m.name.as_str());
        proof {
            assert(rem_pre.remove(0) =~= rem_pre.subrange(1, rem_pre.len() as int));
            lemma_views_of_subrange(rem_pre, 1, rem_pre.len() as int);
            assert(views_of(rem@) =~= orig.subrange(k + 1, orig.len() as int));
            assert(m@ == views_of(rem_pre)[0]);
            assert(m@ == orig[k as int]);
            assert(rest[0] == orig[k as int]);
            assert(rest.subrange(1, rest.len() as int) =~= orig.subrange(
                k + 1,
                orig.len() as int,
            ));
            assert(mk@ == msg_key(orig[k as int]));
        }
        if str_eq(mk.as_str(), lastkey.as_str()) {
            proof {
                assert(msg_key(rest[0]) == prev);
                assert(dedup_from(rest, prev) == dedup_from(
                    orig.subrange(k + 1, orig.len() as int),
                    prev,
                ));
            }
        } else {
            let ghost out_pre = out@;
            out.push(m);
            lastkey = mk;
            proof {
                assert(msg_key(rest[0]) != prev);
                lemma_views_of_push(out_pre, out@[out_pre.len() as int]);
                assert(views_of(out@) =~= views_of(out_pre).push(orig[k as int]));
                assert(dedup_from(rest, prev) == seq![rest[0]] + dedup_from(
                    orig.subrange(k + 1, orig.len() as int),
                    msg_key(rest[0]),
                ));
                assert(views_of(out@) + dedup_from(
                    orig.subrange(k + 1, orig.len() as int),
                    lastkey@,
                ) =~= views_of(out_pre) + dedup_from(rest, prev));
            }
        }
    }
    proof {
        assert(orig.subrange(orig.len() as int, orig.len() as int).len() == 0);
        assert(views_of(out@) + Seq::<MessageModel>::empty() =~= views_of(out@));
    }
    out
}

/// Walks a whole resource: builds one schema per message entry, sorts the
/// schemas case-insensitively by name, and keeps the first of any colliding
/// names.
fn walk_resource(resource: Resource) -> (r: ParsedMessages)
    ensures
        r@ == spec_resource(resource),
{
    let ghost body = resource.body@;
    let ghost all = spec_collect(body);
    let mut msgs: Vec<ParsedMessage> = Vec::new();
    let mut i: usize = 0;
    proof {
        assert(body.subrange(0, body.len() as int) =~= body);
        assert(views_of(msgs@) =~= Seq::<MessageModel>::empty());
        assert(views_of(msgs@) + all =~= all);
    }
    while i < resource.body.len()
        invariant
            i <= resource.body.len(),
            body == resource.body@,
            all == spec_collect(body),
            views_of(msgs@) + spec_collect(body.subrange(i as int, body.len() as int)) == all,
        decreases resource.body.len() - i,
    {
        let ghost pre = msgs@;
        let ghost rest = body.subrange(i as int, body.len() as int);
        proof {
            assert(rest[0] == body[i as int]);
            assert(rest.subrange(1, rest.len() as int) =~= body.subrange(
                i + 1 as int,
                body.len() as int,
            ));
        }
        match &resource.body[i] {
            Entry::Message(msg) => {
                let m = build_message(msg);
                msgs.push(m);
                proof {
                    lemma_views_of_push(pre, msgs@[pre.len() as int]);
                    assert(views_of(msgs@) =~= views_of(pre).push(spec_message(*msg)));
                    assert(views_of(msgs@) + spec_collect(
                        body.subrange(i + 1 as int, body.len() as int),
                    ) =~= all);
                }
            },
            _ => {
                proof {
                    assert(views_of(msgs@) + spec_collect(
                        body.subrange(i + 1 as int, body.len() as int),
                    ) =~= all);
                }
            },
        }
        i = i + 1;
    }
    proof {
        assert(body.subrange(body.len() as int, body.len() as int).len() == 0);
        assert(views_of(msgs@) + Seq::<MessageModel>::empty() =~= views_of(msgs@));
        assert(views_of(msgs@) == all);
    }
    let sorted = sort_messages(msgs);
    let deduped = dedup_messages(sorted);
    ParsedMessages { msgs: deduped }
}

/// Extracts the schema of every message of a parsed resource: one schema per
/// distinct (case-insensitively) message name, sorted case-insensitively,
/// first definition winning on a collision.
pub fn parse_resource(res: Resource) -> (r: ParsedMessages)
    ensures
        r@ == spec_resource(res),
{
    walk_resource(res)
}

} // verus!
