//! The grammar-driven code generator: from a declarative grammar description
//! to typed accessor declarations over the untyped tree.
//!
//! A grammar description is a list of named node definitions, each a rule
//! tree of labeled rules, node and token references, sequences, alternations,
//! options and repetitions. Lowering turns every definition into either a
//! struct item (one field per distinguishable sub-rule — node-typed fields
//! optional, repeated ones many, since error recovery may omit them) or an
//! enum item (one variant per alternative, `#`-marked tokens as data-bearing
//! leaf variants). Generation then renders the items as source declarations.
//! Both steps are deterministic: their contracts give the output exactly as a
//! function of the description.

use vstd::prelude::*;
use vstd::string::StrSliceExecFns;
use vstd::string::StringExecFns;

use crate::strings::{chars_of, string_from_chars};

verus! {

// ---------------------------------------------------------------------------
// Name mangling.
// ---------------------------------------------------------------------------

/// An ASCII capital letter.
pub open spec fn is_ascii_upper(c: char) -> bool {
    0x41 <= c as u32 <= 0x5a
}

/// An ASCII small letter.
pub open spec fn is_ascii_lower(c: char) -> bool {
    0x61 <= c as u32 <= 0x7a
}

/// The ASCII-lowercased form of a character.
pub open spec fn lower_char(c: char) -> char {
    if is_ascii_upper(c) {
        ((c as u32 + 0x20) as u8) as char
    } else {
        c
    }
}

/// The ASCII-uppercased form of a character.
pub open spec fn upper_char(c: char) -> char {
    if is_ascii_lower(c) {
        ((c as u32 - 0x20) as u8) as char
    } else {
        c
    }
}

/// The tail of the snake-case rendering from position `i` on; `prev` says
/// whether any character came before, because an underscore goes in front of
/// every capital except a leading one.
pub open spec fn snake_rec(s: Seq<char>, i: int, prev: bool) -> Seq<char>
    decreases s.len() - i,
{
    if i < 0 || i >= s.len() {
        Seq::empty()
    } else {
        let head = if is_ascii_upper(s[i]) && prev {
            seq!['_', lower_char(s[i])]
        } else {
            seq![lower_char(s[i])]
        };
        head + snake_rec(s, i + 1, true)
    }
}

/// The lower-snake-case rendering of a name.
pub open spec fn snake_of(s: Seq<char>) -> Seq<char> {
    snake_rec(s, 0, false)
}

/// The tail of the Pascal-case rendering from position `i` on; `up` says
/// whether the next letter opens a word, because underscores separate words
/// and disappear.
pub open spec fn pascal_rec(s: Seq<char>, i: int, up: bool) -> Seq<char>
    decreases s.len() - i,
{
    if i < 0 || i >= s.len() {
        Seq::empty()
    } else if s[i] == '_' {
        pascal_rec(s, i + 1, true)
    } else if up {
        seq![upper_char(s[i])] + pascal_rec(s, i + 1, false)
    } else {
        seq![lower_char(s[i])] + pascal_rec(s, i + 1, false)
    }
}

/// The Pascal-case rendering of a name.
pub open spec fn pascal_of(s: Seq<char>) -> Seq<char> {
    pascal_rec(s, 0, true)
}

/// The plural of a field name.
pub open spec fn plural_of(s: Seq<char>) -> Seq<char> {
    s.push('s')
}

/// Whether `c` is an ASCII capital letter.
fn ascii_upper(c: char) -> (r: bool)
    ensures
        r == is_ascii_upper(c),
{
    let u = c as u32;
    0x41 <= u && u <= 0x5a
}

/// Whether `c` is an ASCII small letter.
fn ascii_lower(c: char) -> (r: bool)
    ensures
        r == is_ascii_lower(c),
{
    let u = c as u32;
    0x61 <= u && u <= 0x7a
}

/// Lowercase one character.
fn to_lower(c: char) -> (r: char)
    ensures
        r == lower_char(c),
{
    if ascii_upper(c) {
        ((c as u32 + 0x20) as u8) as char
    } else {
        c
    }
}

/// Uppercase one character.
fn to_upper(c: char) -> (r: char)
    ensures
        r == upper_char(c),
{
    if ascii_lower(c) {
        ((c as u32 - 0x20) as u8) as char
    } else {
        c
    }
}

/// The lower-snake-case form of a name: every letter lowercased, an
/// underscore before each capital that does not open the name.
pub fn to_lower_snake_case(s: &str) -> (r: String)
    ensures
        r@ == snake_of(s@),
{
    let cs = chars_of(s);
    let n = cs.len();
    let mut out: Vec<char> = Vec::new();
    let mut i: usize = 0;
    while i < n
        invariant
            i <= n,
            n == cs@.len(),
            cs@ == s@,
            snake_of(s@) == out@ + snake_rec(s@, i as int, i > 0),
        decreases n - i,
    {
        let c = cs[i];
        let ghost out0 = out@;
        if ascii_upper(c) && i > 0 {
            out.push('_');
        }
        out.push(to_lower(c));
        proof {
            if is_ascii_upper(c) && i > 0 {
                assert(out@ =~= out0 + seq!['_', lower_char(c)]);
            } else {
                assert(out@ =~= out0 + seq![lower_char(c)]);
            }
            assert(out0 + snake_rec(s@, i as int, i > 0) =~= out@ + snake_rec(
                s@,
                i + 1,
                true,
            ));
        }
        i = i + 1;
    }
    proof {
        assert(out@ + snake_rec(s@, n as int, n > 0) =~= out@);
    }
    string_from_chars(&out)
}

/// The Pascal-case form of a name: underscores dropped, each word opened
/// with a capital, the rest lowercased.
pub fn to_pascal_case(s: &str) -> (r: String)
    ensures
        r@ == pascal_of(s@),
{
    let cs = chars_of(s);
    let n = cs.len();
    let mut out: Vec<char> = Vec::new();
    let mut up = true;
    let mut i: usize = 0;
    while i < n
        invariant
            i <= n,
            n == cs@.len(),
            cs@ == s@,
            pascal_of(s@) == out@ + pascal_rec(s@, i as int, up),
        decreases n - i,
    {
        let c = cs[i];
        let ghost out0 = out@;
        if c == '_' {
            up = true;
        } else if up {
            out.push(to_upper(c));
            up = false;
            proof {
                assert(out@ =~= out0 + seq![upper_char(c)]);
            }
        } else {
            out.push(to_lower(c));
            proof {
                assert(out@ =~= out0 + seq![lower_char(c)]);
            }
        }
        proof {
            assert(pascal_of(s@) =~= out@ + pascal_rec(s@, i + 1, up));
        }
        i = i + 1;
    }
    proof {
        assert(out@ + pascal_rec(s@, n as int, up) =~= out@);
    }
    string_from_chars(&out)
}

/// The plural of a field name: the name with an `s` appended.
pub fn pluralize(s: &str) -> (r: String)
    ensures
        r@ == plural_of(s@),
{
    let mut cs = chars_of(s);
    cs.push('s');
    string_from_chars(&cs)
}

// ---------------------------------------------------------------------------
// The grammar description.
// ---------------------------------------------------------------------------

/// One rule of a grammar description.
#[derive(Debug)]
pub enum Rule {
    /// A sub-rule under an explicit field label.
    Labeled { label: String, rule: Box<Rule> },
    /// A reference to a node definition, by its index in the description.
    Node(usize),
    /// A reference to a token by its name in the description; a leading `#`
    /// marks it as data-bearing.
    Token(String),
    /// Rules in sequence.
    Chain(Vec<Rule>),
    /// Ordered alternatives.
    Alt(Vec<Rule>),
    /// An optional rule.
    Opt(Box<Rule>),
    /// A zero-or-more repetition.
    Rep(Box<Rule>),
}

/// One named node definition.
#[derive(Debug)]
pub struct GrammarNode {
    pub name: String,
    pub rule: Rule,
}

/// A whole grammar description: the node definitions, in order.
#[derive(Debug)]
pub struct GrammarDef {
    pub nodes: Vec<GrammarNode>,
}

/// The node names of a description, in order.
pub open spec fn names_of(g: GrammarDef) -> Seq<Seq<char>> {
    g.nodes@.map(|i: int, n: GrammarNode| n.name@)
}

// ---------------------------------------------------------------------------
// The intermediate representation emitted by lowering.
// ---------------------------------------------------------------------------

/// How often a node-typed field occurs. Every singular node field is
/// optional, because error recovery may omit it from the tree.
#[derive(Clone, Copy, Debug, PartialEq, Eq, Structural)]
pub enum Cardinality {
    Optional,
    Many,
}

/// A field of a generated struct: a data-bearing token, or a typed node
/// reference.
#[derive(Debug)]
pub enum Field {
    Token(String),
    Node { label: String, ty: String, cardinality: Cardinality },
}

/// A variant of a generated enum: a data-bearing token, or a nested node
/// type.
#[derive(Debug)]
pub enum Variant {
    Token(String),
    Node(String),
}

/// The shape of one generated item.
#[derive(Debug)]
pub enum AstItemKind {
    Struct(Vec<Field>),
    Enum(Vec<Variant>),
}

/// One generated item: a typed accessor declaration over the untyped tree.
#[derive(Debug)]
pub struct AstItem {
    pub name: String,
    pub kind: AstItemKind,
}

/// The model of a field.
pub enum FieldModel {
    Token(Seq<char>),
    Node { label: Seq<char>, ty: Seq<char>, cardinality: Cardinality },
}

/// The model of a variant.
pub enum VariantModel {
    Token(Seq<char>),
    Node(Seq<char>),
}

/// The model of an item's shape.
pub enum ItemKindModel {
    Struct(Seq<FieldModel>),
    Enum(Seq<VariantModel>),
}

/// The model of one generated item.
pub struct ItemModel {
    pub name: Seq<char>,
    pub kind: ItemKindModel,
}

/// The model of one field.
pub open spec fn field_model(f: Field) -> FieldModel {
    match f {
        Field::Token(name) => FieldModel::Token(name@),
        Field::Node { label, ty, cardinality } => FieldModel::Node {
            label: label@,
            ty: ty@,
            cardinality,
        },
    }
}

/// The models of a field list.
pub open spec fn fields_model(s: Seq<Field>) -> Seq<FieldModel> {
    s.map(|i: int, f: Field| field_model(f))
}

/// The model of one variant.
pub open spec fn variant_model(v: Variant) -> VariantModel {
    match v {
        Variant::Token(name) => VariantModel::Token(name@),
        Variant::Node(name) => VariantModel::Node(name@),
    }
}

/// The models of a variant list.
pub open spec fn variants_model(s: Seq<Variant>) -> Seq<VariantModel> {
    s.map(|i: int, v: Variant| variant_model(v))
}

/// The model of one item.
pub open spec fn item_model(it: AstItem) -> ItemModel {
    match it.kind {
        AstItemKind::Struct(fs) => ItemModel {
            name: it.name@,
            kind: ItemKindModel::Struct(fields_model(fs@)),
        },
        AstItemKind::Enum(vs) => ItemModel {
            name: it.name@,
            kind: ItemKindModel::Enum(variants_model(vs@)),
        },
    }
}

/// The models of an item list.
pub open spec fn items_model(s: Seq<AstItem>) -> Seq<ItemModel> {
    s.map(|i: int, it: AstItem| item_model(it))
}

// ---------------------------------------------------------------------------
// What lowering accepts.
// ---------------------------------------------------------------------------

/// Whether one rule can be lowered: node references are in bounds, every
/// repetition holds a plain node reference, and every alternative is a node
/// or token reference.
pub open spec fn rule_lowerable(r: Rule, n_nodes: int) -> bool
    decreases r,
{
    match r {
        Rule::Labeled { label, rule } => rule_lowerable(*rule, n_nodes),
        Rule::Node(n) => (n as int) < n_nodes,
        Rule::Token(t) => true,
        Rule::Chain(rs) => rules_lowerable(rs@, n_nodes),
        Rule::Alt(rs) => alts_lowerable(rs@, n_nodes),
        Rule::Opt(r2) => rule_lowerable(*r2, n_nodes),
        Rule::Rep(inner) => (*inner matches Rule::Node(n) && (n as int) < n_nodes),
    }
}

/// Whether every rule of a sequence can be lowered.
pub open spec fn rules_lowerable(rs: Seq<Rule>, n_nodes: int) -> bool
    decreases rs,
{
    if rs.len() == 0 {
        true
    } else {
        rule_lowerable(rs[0], n_nodes) && rules_lowerable(rs.drop_first(), n_nodes)
    }
}

/// Whether every alternative is a node reference or a token reference.
pub open spec fn alts_lowerable(rs: Seq<Rule>, n_nodes: int) -> bool
    decreases rs,
{
    if rs.len() == 0 {
        true
    } else {
        (match rs[0] {
            Rule::Node(n) => (n as int) < n_nodes,
            Rule::Token(t) => true,
            _ => false,
        }) && alts_lowerable(rs.drop_first(), n_nodes)
    }
}

/// Whether a whole description can be lowered.
pub open spec fn grammar_lowerable(g: GrammarDef) -> bool {
    forall|i: int|
        0 <= i < g.nodes@.len() ==> rule_lowerable(
            #[trigger] g.nodes@[i].rule,
            g.nodes@.len() as int,
        )
}

// ---------------------------------------------------------------------------
// The lowering, as a mathematical model.
// ---------------------------------------------------------------------------

/// The label to use: the explicit one if any, the derived one otherwise.
pub open spec fn opt_label(label: Option<Seq<char>>, derived: Seq<char>) -> Seq<char> {
    match label {
        Option::Some(l) => l,
        Option::None => derived,
    }
}

/// What lowering one rule contributes: fields for the enclosing struct, and
/// whole items (enums discovered in alternations).
pub open spec fn lower_rule_spec(
    names: Seq<Seq<char>>,
    r: Rule,
    name: Seq<char>,
    label: Option<Seq<char>>,
) -> (Seq<FieldModel>, Seq<ItemModel>)
    decreases r,
{
    match r {
        Rule::Labeled { label: l, rule } => lower_rule_spec(names, *rule, name, Option::Some(l@)),
        Rule::Node(n) => (
            seq![
                FieldModel::Node {
                    label: opt_label(label, snake_of(names[n as int])),
                    ty: names[n as int],
                    cardinality: Cardinality::Optional,
                },
            ],
            Seq::empty(),
        ),
        Rule::Token(t) => if t@.len() > 0 && t@[0] == '#' {
            (
                seq![FieldModel::Token(opt_label(label, snake_of(t@.skip(1))))],
                Seq::empty(),
            )
        } else {
            (Seq::empty(), Seq::empty())
        },
        Rule::Chain(rs) => lower_list_spec(names, rs@, name, label),
        Rule::Alt(rs) => (
            Seq::empty(),
            seq![
                ItemModel { name, kind: ItemKindModel::Enum(alt_variants_spec(names, rs@)) },
            ],
        ),
        Rule::Opt(r2) => lower_rule_spec(names, *r2, name, label),
        Rule::Rep(inner) => match *inner {
            Rule::Node(n) => (
                seq![
                    FieldModel::Node {
                        label: opt_label(label, plural_of(snake_of(names[n as int]))),
                        ty: names[n as int],
                        cardinality: Cardinality::Many,
                    },
                ],
                Seq::empty(),
            ),
            _ => (Seq::empty(), Seq::empty()),
        },
    }
}

/// What lowering a sequence of rules contributes, in order.
pub open spec fn lower_list_spec(
    names: Seq<Seq<char>>,
    rs: Seq<Rule>,
    name: Seq<char>,
    label: Option<Seq<char>>,
) -> (Seq<FieldModel>, Seq<ItemModel>)
    decreases rs,
{
    if rs.len() == 0 {
        (Seq::empty(), Seq::empty())
    } else {
        let h = lower_rule_spec(names, rs[0], name, label);
        let t = lower_list_spec(names, rs.drop_first(), name, label);
        (h.0 + t.0, h.1 + t.1)
    }
}

/// The variants an alternation contributes: nodes as nested types,
/// `#`-marked tokens as data-bearing leaves, other tokens dropped.
pub open spec fn alt_variants_spec(names: Seq<Seq<char>>, rs: Seq<Rule>) -> Seq<VariantModel>
    decreases rs,
{
    if rs.len() == 0 {
        Seq::empty()
    } else {
        let head: Seq<VariantModel> = match rs[0] {
            Rule::Node(n) => seq![VariantModel::Node(names[n as int])],
            Rule::Token(t) => if t@.len() > 0 && t@[0] == '#' {
                seq![VariantModel::Token(pascal_of(t@.skip(1)))]
            } else {
                Seq::empty()
            },
            _ => Seq::empty(),
        };
        head + alt_variants_spec(names, rs.drop_first())
    }
}

/// What lowering one node definition contributes: first any enums its
/// alternations produced, then its own struct when any field was collected.
pub open spec fn lower_node_spec(names: Seq<Seq<char>>, nd: GrammarNode) -> Seq<ItemModel> {
    let r = lower_rule_spec(names, nd.rule, nd.name@, Option::None);
    if r.0.len() > 0 {
        r.1 + seq![ItemModel { name: nd.name@, kind: ItemKindModel::Struct(r.0) }]
    } else {
        r.1
    }
}

/// What lowering a whole description produces, node by node.
pub open spec fn lower_grammar_spec(names: Seq<Seq<char>>, nodes: Seq<GrammarNode>) -> Seq<
    ItemModel,
>
    decreases nodes,
{
    if nodes.len() == 0 {
        Seq::empty()
    } else {
        lower_node_spec(names, nodes[0]) + lower_grammar_spec(names, nodes.drop_first())
    }
}

/// Adding a field appends its model.
proof fn lemma_fields_model_push(s: Seq<Field>, f: Field)
    ensures
        fields_model(s.push(f)) == fields_model(s).push(field_model(f)),
{
    assert(fields_model(s.push(f)) =~= fields_model(s).push(field_model(f)));
}

/// Adding a variant appends its model.
proof fn lemma_variants_model_push(s: Seq<Variant>, v: Variant)
    ensures
        variants_model(s.push(v)) == variants_model(s).push(variant_model(v)),
{
    assert(variants_model(s.push(v)) =~= variants_model(s).push(variant_model(v)));
}

/// Adding an item appends its model.
proof fn lemma_items_model_push(s: Seq<AstItem>, it: AstItem)
    ensures
        items_model(s.push(it)) == items_model(s).push(item_model(it)),
{
    assert(items_model(s.push(it)) =~= items_model(s).push(item_model(it)));
}

/// The view of an optional explicit label.
pub open spec fn label_view(l: Option<&str>) -> Option<Seq<char>> {
    match l {
        Option::Some(s) => Option::Some(s@),
        Option::None => Option::None,
    }
}

// ---------------------------------------------------------------------------
// The lowering, executable and proved against the model.
// ---------------------------------------------------------------------------

/// The walker that lowers a grammar description into generated items.
pub struct GrammarWalker {
    pub ast: Vec<AstItem>,
}

impl GrammarWalker {
    /// A walker with nothing collected yet.
    pub fn new() -> (w: GrammarWalker)
        ensures
            w.ast@.len() == 0,
    {
        GrammarWalker { ast: Vec::new() }
    }

    /// Lower the node definition at index `n`: append any enums its
    /// alternations produce, then its own struct if any field was collected.
    pub fn lower_node(&mut self, grammar: &GrammarDef, n: usize)
        requires
            n < grammar.nodes@.len(),
            rule_lowerable(grammar.nodes@[n as int].rule, grammar.nodes@.len() as int),
        ensures
            items_model(final(self).ast@) == items_model(old(self).ast@) + lower_node_spec(
                names_of(*grammar),
                grammar.nodes@[n as int],
            ),
    {
        let ghost items0 = self.ast@;
        let ghost names = names_of(*grammar);
        let mut acc: Vec<Field> = Vec::new();
        let node = &grammar.nodes[n];
        let ghost spec_r = lower_rule_spec(names, node.rule, node.name@, Option::None);
        self.lower_rule(grammar, &mut acc, &node.rule, node.name.as_str(), Option::None);
        proof {
            assert(fields_model(acc@) =~= spec_r.0);
            assert(fields_model(acc@).len() == acc@.len());
        }
        if acc.len() == 0 {
            proof {
                assert(items_model(self.ast@) =~= items_model(items0) + lower_node_spec(
                    names,
                    grammar.nodes@[n as int],
                ));
            }
            return ;
        }
        let ghost items1 = self.ast@;
        let item = AstItem { name: node.name.clone(), kind: AstItemKind::Struct(acc) };
        let ghost gitem = item;
        self.ast.push(item);
        proof {
            lemma_items_model_push(items1, gitem);
            assert(items_model(self.ast@) =~= items_model(items0) + lower_node_spec(
                names,
                grammar.nodes@[n as int],
            ));
        }
    }

    /// Lower one rule: push the fields it contributes onto `acc`, and append
    /// any enum items its alternations produce.
    pub fn lower_rule(
        &mut self,
        grammar: &GrammarDef,
        acc: &mut Vec<Field>,
        rule: &Rule,
        name: &str,
        label: Option<&str>,
    )
        requires
            rule_lowerable(*rule, grammar.nodes@.len() as int),
        ensures
            ({
                let r = lower_rule_spec(names_of(*grammar), *rule, name@, label_view(label));
                &&& fields_model(final(acc)@) == fields_model(old(acc)@) + r.0
                &&& items_model(final(self).ast@) == items_model(old(self).ast@) + r.1
            }),
        decreases *rule,
    {
        let ghost names = names_of(*grammar);
        let ghost acc0 = acc@;
        let ghost items0 = self.ast@;
        match rule {
            Rule::Labeled { label: l, rule: inner } => {
                self.lower_rule(grammar, acc, inner, name, Option::Some(l.as_str()));
            },
            Rule::Node(n) => {
                let nested = &grammar.nodes[*n];
                let field_name = match label {
                    Option::Some(s) => String::from_str(s),
                    Option::None => to_lower_snake_case(nested.name.as_str()),
                };
                let f = Field::Node {
                    label: field_name,
                    ty: nested.name.clone(),
                    cardinality: Cardinality::Optional,
                };
                let ghost gf = f;
                let ghost fm = field_model(f);
                acc.push(f);
                proof {
                    lemma_fields_model_push(acc0, gf);
                    assert(fields_model(acc@) =~= fields_model(acc0) + seq![fm]);
                    assert(items_model(self.ast@) =~= items_model(items0) + Seq::<
                        ItemModel,
                    >::empty());
                }
            },
            Rule::Token(t) => {
                let ts = t.as_str();
                let tn = ts.unicode_len();
                if tn >= 1 && ts.get_char(0) == '#' {
                    let rest = ts.substring_char(1, tn);
                    proof {
                        assert(rest@ =~= t@.skip(1));
                    }
                    let field_name = match label {
                        Option::Some(s) => String::from_str(s),
                        Option::None => to_lower_snake_case(rest),
                    };
                    let f = Field::Token(field_name);
                    let ghost gf = f;
                    let ghost fm = field_model(f);
                    acc.push(f);
                    proof {
                        lemma_fields_model_push(acc0, gf);
                        assert(fields_model(acc@) =~= fields_model(acc0) + seq![fm]);
                        assert(items_model(self.ast@) =~= items_model(items0) + Seq::<
                            ItemModel,
                        >::empty());
                    }
                } else {
                    proof {
                        assert(fields_model(acc@) =~= fields_model(acc0) + Seq::<
                            FieldModel,
                        >::empty());
                        assert(items_model(self.ast@) =~= items_model(items0) + Seq::<
                            ItemModel,
                        >::empty());
                    }
                }
            },
            Rule::Chain(rs) => {
                let k = rs.len();
                let mut i: usize = 0;
                proof {
                    assert(rs@.skip(0) =~= rs@);
                    assert(fields_model(acc@) + lower_list_spec(
                        names,
                        rs@,
                        name@,
                        label_view(label),
                    ).0 =~= fields_model(acc0) + lower_list_spec(
                        names,
                        rs@,
                        name@,
                        label_view(label),
                    ).0);
                    assert(items_model(self.ast@) + lower_list_spec(
                        names,
                        rs@,
                        name@,
                        label_view(label),
                    ).1 =~= items_model(items0) + lower_list_spec(
                        names,
                        rs@,
                        name@,
                        label_view(label),
                    ).1);
                }
                while i < k
                    invariant
                        i <= k,
                        k == rs@.len(),
                        *rule == Rule::Chain(*rs),
                        names == names_of(*grammar),
                        rules_lowerable(rs@.skip(i as int), grammar.nodes@.len() as int),
                        ({
                            let total = lower_list_spec(names, rs@, name@, label_view(label));
                            let rest = lower_list_spec(
                                names,
                                rs@.skip(i as int),
                                name@,
                                label_view(label),
                            );
                            &&& fields_model(acc@) + rest.0 == fields_model(acc0) + total.0
                            &&& items_model(self.ast@) + rest.1 == items_model(items0) + total.1
                        }),
                    decreases k - i,
                {
                    let ghost acc_pre = acc@;
                    let ghost items_pre = self.ast@;
                    let ri = &rs[i];
                    proof {
                        assert(*ri == rs@[i as int]);
                        assert(rs@.skip(i as int)[0] == rs@[i as int]);
                        assert(*rule == Rule::Chain(*rs));
                        assert(rule->Chain_0 == *rs);
                        assert(decreases_to!(*rule => rule->Chain_0));
                        assert(decreases_to!(*rs => rs@[i as int]));
                    }
                    self.lower_rule(grammar, acc, ri, name, label);
                    proof {
                        let h = lower_rule_spec(names, rs@[i as int], name@, label_view(label));
                        assert(fields_model(acc@) == fields_model(acc_pre) + h.0);
                        assert(rs@.skip(i as int).drop_first() =~= rs@.skip(i + 1));
                        let rest0 = lower_list_spec(
                            names,
                            rs@.skip(i as int),
                            name@,
                            label_view(label),
                        );
                        let rest1 = lower_list_spec(names, rs@.skip(i + 1), name@, label_view(label));
                        assert(rest0.0 =~= h.0 + rest1.0);
                        assert(rest0.1 =~= h.1 + rest1.1);
                        assert(fields_model(acc@) + rest1.0 =~= (fields_model(acc_pre) + h.0)
                            + rest1.0);
                        assert((fields_model(acc_pre) + h.0) + rest1.0 =~= fields_model(acc_pre)
                            + rest0.0);
                        assert(items_model(self.ast@) + rest1.1 =~= items_model(items_pre)
                            + rest0.1);
                    }
                    i = i + 1;
                }
                proof {
                    assert(rs@.skip(k as int) =~= Seq::<Rule>::empty());
                    let total = lower_list_spec(names, rs@, name@, label_view(label));
                    assert(fields_model(acc@) + Seq::<FieldModel>::empty() =~= fields_model(acc@));
                    assert(items_model(self.ast@) + Seq::<ItemModel>::empty() =~= items_model(
                        self.ast@,
                    ));
                }
            },
            Rule::Alt(rs) => {
                let k = rs.len();
                let mut variants: Vec<Variant> = Vec::new();
                let mut i: usize = 0;
                proof {
                    assert(rs@.skip(0) =~= rs@);
                    assert(variants_model(variants@) =~= Seq::<VariantModel>::empty());
                    assert(variants_model(variants@) + alt_variants_spec(names, rs@)
                        =~= alt_variants_spec(names, rs@));
                }
                while i < k
                    invariant
                        i <= k,
                        k == rs@.len(),
                        alts_lowerable(rs@.skip(i as int), grammar.nodes@.len() as int),
                        grammar.nodes@.len() == names.len(),
                        names == names_of(*grammar),
                        variants_model(variants@) + alt_variants_spec(names, rs@.skip(i as int))
                            == alt_variants_spec(names, rs@),
                    decreases k - i,
                {
                    let ghost vars_pre = variants@;
                    proof {
                        assert(rs@.skip(i as int)[0] == rs@[i as int]);
                        assert(rs@.skip(i as int).drop_first() =~= rs@.skip(i + 1));
                    }
                    match &rs[i] {
                        Rule::Node(n) => {
                            let v = Variant::Node(grammar.nodes[*n].name.clone());
                            let ghost gv = v;
                            variants.push(v);
                            proof {
                                lemma_variants_model_push(vars_pre, gv);
                                assert(variants_model(variants@) + alt_variants_spec(
                                    names,
                                    rs@.skip(i + 1),
                                ) =~= alt_variants_spec(names, rs@));
                            }
                        },
                        Rule::Token(t) => {
                            let ts = t.as_str();
                            let tn = ts.unicode_len();
                            if tn >= 1 && ts.get_char(0) == '#' {
                                let rest = ts.substring_char(1, tn);
                                proof {
                                    assert(rest@ =~= t@.skip(1));
                                }
                                let v = Variant::Token(to_pascal_case(rest));
                                let ghost gv = v;
                                variants.push(v);
                                proof {
                                    lemma_variants_model_push(vars_pre, gv);
                                    assert(variants_model(variants@) + alt_variants_spec(
                                        names,
                                        rs@.skip(i + 1),
                                    ) =~= alt_variants_spec(names, rs@));
                                }
                            } else {
                                proof {
                                    assert(variants_model(variants@) + alt_variants_spec(
                                        names,
                                        rs@.skip(i + 1),
                                    ) =~= alt_variants_spec(names, rs@));
                                }
                            }
                        },
                        _ => {
                            proof {
                                assert(false);
                            }
                        },
                    }
                    i = i + 1;
                }
                let ghost vars_done = variants@;
                let item = AstItem { name: String::from_str(name), kind: AstItemKind::Enum(variants) };
                let ghost gitem = item;
                self.ast.push(item);
                proof {
                    assert(rs@.skip(k as int) =~= Seq::<Rule>::empty());
                    assert(variants_model(vars_done) + Seq::<VariantModel>::empty()
                        =~= variants_model(vars_done));
                    lemma_items_model_push(items0, gitem);
                    let r = lower_rule_spec(names, *rule, name@, label_view(label));
                    assert(items_model(self.ast@) =~= items_model(items0) + r.1);
                    assert(fields_model(acc@) =~= fields_model(acc0) + r.0);
                }
            },
            Rule::Opt(inner) => {
                self.lower_rule(grammar, acc, inner, name, label);
            },
            Rule::Rep(inner) => {
                match &**inner {
                    Rule::Node(n) => {
                        let nested = &grammar.nodes[*n];
                        let field_name = match label {
                            Option::Some(s) => String::from_str(s),
                            Option::None => pluralize(
                                to_lower_snake_case(nested.name.as_str()).as_str(),
                            ),
                        };
                        let f = Field::Node {
                            label: field_name,
                            ty: nested.name.clone(),
                            cardinality: Cardinality::Many,
                        };
                        let ghost gf = f;
                        let ghost fm = field_model(f);
                        acc.push(f);
                        proof {
                            lemma_fields_model_push(acc0, gf);
                            assert(fields_model(acc@) =~= fields_model(acc0) + seq![fm]);
                            assert(items_model(self.ast@) =~= items_model(items0) + Seq::<
                                ItemModel,
                            >::empty());
                        }
                    },
                    _ => {
                        proof {
                            assert(false);
                        }
                    },
                }
            },
        }
    }
}

/// Lower a whole grammar description into the generated items, node
/// definition by node definition.
pub fn lower_grammar(grammar: &GrammarDef) -> (items: Vec<AstItem>)
    requires
        grammar_lowerable(*grammar),
    ensures
        items_model(items@) == lower_grammar_spec(names_of(*grammar), grammar.nodes@),
{
    let ghost names = names_of(*grammar);
    let mut w = GrammarWalker::new();
    let k = grammar.nodes.len();
    let mut i: usize = 0;
    proof {
        assert(items_model(w.ast@) =~= Seq::<ItemModel>::empty());
        assert(grammar.nodes@.skip(0) =~= grammar.nodes@);
        assert(items_model(w.ast@) + lower_grammar_spec(names, grammar.nodes@)
            =~= lower_grammar_spec(names, grammar.nodes@));
    }
    while i < k
        invariant
            i <= k,
            k == grammar.nodes@.len(),
            grammar_lowerable(*grammar),
            names == names_of(*grammar),
            items_model(w.ast@) + lower_grammar_spec(names, grammar.nodes@.skip(i as int))
                == lower_grammar_spec(names, grammar.nodes@),
        decreases k - i,
    {
        let ghost items_pre = w.ast@;
        proof {
            assert(grammar.nodes@.skip(i as int)[0] == grammar.nodes@[i as int]);
            assert(grammar.nodes@.skip(i as int).drop_first() =~= grammar.nodes@.skip(i + 1));
        }
        w.lower_node(grammar, i);
        proof {
            let h = lower_node_spec(names, grammar.nodes@[i as int]);
            let rest0 = lower_grammar_spec(names, grammar.nodes@.skip(i as int));
            let rest1 = lower_grammar_spec(names, grammar.nodes@.skip(i + 1));
            assert(rest0 =~= h + rest1);
            assert(items_model(w.ast@) + rest1 =~= (items_model(items_pre) + h) + rest1);
            assert((items_model(items_pre) + h) + rest1 =~= items_model(items_pre) + rest0);
        }
        i = i + 1;
    }
    proof {
        assert(grammar.nodes@.skip(k as int) =~= Seq::<GrammarNode>::empty());
        assert(items_model(w.ast@) + Seq::<ItemModel>::empty() =~= items_model(w.ast@));
    }
    w.ast
}

// ---------------------------------------------------------------------------
// Generation: render the lowered items as source declarations.
// ---------------------------------------------------------------------------

/// The rendering of one struct field: data-bearing tokens keep their raw
/// green node, node references are optional or repeated.
pub open spec fn field_text(f: FieldModel) -> Seq<char> {
    match f {
        FieldModel::Token(name) => "    "@ + name + ": GreenNode,\n"@,
        FieldModel::Node { label, ty, cardinality } => match cardinality {
            Cardinality::Many => "    "@ + label + ": Vec<"@ + ty + ">,\n"@,
            Cardinality::Optional => "    "@ + label + ": Option<"@ + ty + ">,\n"@,
        },
    }
}

/// The rendering of a field list, in order.
pub open spec fn fields_text(s: Seq<FieldModel>) -> Seq<char>
    decreases s,
{
    if s.len() == 0 {
        Seq::empty()
    } else {
        field_text(s[0]) + fields_text(s.drop_first())
    }
}

/// The rendering of one enum variant.
pub open spec fn variant_text(v: VariantModel) -> Seq<char> {
    match v {
        VariantModel::Node(name) => "    "@ + name + "("@ + name + "),\n"@,
        VariantModel::Token(name) => "    "@ + name + "(GreenNode),\n"@,
    }
}

/// The rendering of a variant list, in order.
pub open spec fn variants_text(s: Seq<VariantModel>) -> Seq<char>
    decreases s,
{
    if s.len() == 0 {
        Seq::empty()
    } else {
        variant_text(s[0]) + variants_text(s.drop_first())
    }
}

/// The rendering of one item: a struct or enum declaration.
pub open spec fn item_text(m: ItemModel) -> Seq<char> {
    match m.kind {
        ItemKindModel::Struct(fs) => "struct "@ + m.name + " {\n"@ + fields_text(fs) + "}\n\n"@,
        ItemKindModel::Enum(vs) => "enum "@ + m.name + " {\n"@ + variants_text(vs) + "}\n\n"@,
    }
}

/// The rendering of an item list, in order.
pub open spec fn items_text(s: Seq<ItemModel>) -> Seq<char>
    decreases s,
{
    if s.len() == 0 {
        Seq::empty()
    } else {
        item_text(s[0]) + items_text(s.drop_first())
    }
}

/// The whole generated source: the import of the raw node type, then every
/// item's declaration.
pub open spec fn generated_text(items: Seq<ItemModel>) -> Seq<char> {
    "use lang::green::GreenNode;\n\n"@ + items_text(items)
}

/// Render one field.
fn push_field_src(out: &mut String, f: &Field)
    ensures
        final(out)@ == old(out)@ + field_text(field_model(*f)),
{
    match f {
        Field::Token(name) => {
            out.append("    ");
            out.append(name.as_str());
            out.append(": GreenNode,\n");
        },
        Field::Node { label, ty, cardinality } => {
            out.append("    ");
            out.append(label.as_str());
            match cardinality {
                Cardinality::Many => out.append(": Vec<"),
                Cardinality::Optional => out.append(": Option<"),
            }
            out.append(ty.as_str());
            out.append(">,\n");
        },
    }
    proof {
        assert(out@ =~= old(out)@ + field_text(field_model(*f)));
    }
}

/// Render one variant.
fn push_variant_src(out: &mut String, v: &Variant)
    ensures
        final(out)@ == old(out)@ + variant_text(variant_model(*v)),
{
    match v {
        Variant::Node(name) => {
            out.append("    ");
            out.append(name.as_str());
            out.append("(");
            out.append(name.as_str());
            out.append("),\n");
        },
        Variant::Token(name) => {
            out.append("    ");
            out.append(name.as_str());
            out.append("(GreenNode),\n");
        },
    }
    proof {
        assert(out@ =~= old(out)@ + variant_text(variant_model(*v)));
    }
}

/// Render one item.
fn push_item_src(out: &mut String, it: &AstItem)
    ensures
        final(out)@ == old(out)@ + item_text(item_model(*it)),
{
    let ghost base = out@;
    match &it.kind {
        AstItemKind::Struct(fs) => {
            out.append("struct ");
            out.append(it.name.as_str());
            out.append(" {\n");
            let ghost head = out@;
            let ghost fm = fields_model(fs@);
            let k = fs.len();
            let mut i: usize = 0;
            proof {
                assert(fm.skip(0) =~= fm);
                assert(out@ + fields_text(fm) =~= head + fields_text(fm));
            }
            while i < k
                invariant
                    i <= k,
                    k == fs@.len(),
                    fm == fields_model(fs@),
                    out@ + fields_text(fm.skip(i as int)) == head + fields_text(fm),
                decreases k - i,
            {
                let ghost out_pre = out@;
                proof {
                    assert(fm.skip(i as int)[0] == fm[i as int]);
                    assert(fm[i as int] == field_model(fs@[i as int]));
                    assert(fm.skip(i as int).drop_first() =~= fm.skip(i + 1));
                }
                push_field_src(out, &fs[i]);
                proof {
                    assert(out@ + fields_text(fm.skip(i + 1)) =~= out_pre + fields_text(
                        fm.skip(i as int),
                    ));
                }
                i = i + 1;
            }
            proof {
                assert(fm.skip(k as int) =~= Seq::<FieldModel>::empty());
                assert(out@ + Seq::<char>::empty() =~= out@);
            }
            out.append("}\n\n");
            proof {
                assert(out@ =~= base + item_text(item_model(*it)));
            }
        },
        AstItemKind::Enum(vs) => {
            out.append("enum ");
            out.append(it.name.as_str());
            out.append(" {\n");
            let ghost head = out@;
            let ghost vm = variants_model(vs@);
            let k = vs.len();
            let mut i: usize = 0;
            proof {
                assert(vm.skip(0) =~= vm);
                assert(out@ + variants_text(vm) =~= head + variants_text(vm));
            }
            while i < k
                invariant
                    i <= k,
                    k == vs@.len(),
                    vm == variants_model(vs@),
                    out@ + variants_text(vm.skip(i as int)) == head + variants_text(vm),
                decreases k - i,
            {
                let ghost out_pre = out@;
                proof {
                    assert(vm.skip(i as int)[0] == vm[i as int]);
                    assert(vm[i as int] == variant_model(vs@[i as int]));
                    assert(vm.skip(i as int).drop_first() =~= vm.skip(i + 1));
                }
                push_variant_src(out, &vs[i]);
                proof {
                    assert(out@ + variants_text(vm.skip(i + 1)) =~= out_pre + variants_text(
                        vm.skip(i as int),
                    ));
                }
                i = i + 1;
            }
            proof {
                assert(vm.skip(k as int) =~= Seq::<VariantModel>::empty());
                assert(out@ + Seq::<char>::empty() =~= out@);
            }
            out.append("}\n\n");
            proof {
                assert(out@ =~= base + item_text(item_model(*it)));
            }
        },
    }
}

/// Render the generated items as compilable source declarations: the typed
/// accessor layer over the untyped tree. Deterministic: the output is a
/// function of the items alone.
pub fn generate(ast: &Vec<AstItem>) -> (src: String)
    ensures
        src@ == generated_text(items_model(ast@)),
{
    let mut out = String::from_str("use lang::green::GreenNode;\n\n");
    let ghost head = out@;
    let ghost im = items_model(ast@);
    let k = ast.len();
    let mut i: usize = 0;
    proof {
        assert(im.skip(0) =~= im);
        assert(out@ + items_text(im) =~= head + items_text(im));
    }
    while i < k
        invariant
            i <= k,
            k == ast@.len(),
            im == items_model(ast@),
            out@ + items_text(im.skip(i as int)) == head + items_text(im),
        decreases k - i,
    {
        let ghost out_pre = out@;
        proof {
            assert(im.skip(i as int)[0] == im[i as int]);
            assert(im[i as int] == item_model(ast@[i as int]));
            assert(im.skip(i as int).drop_first() =~= im.skip(i + 1));
        }
        push_item_src(&mut out, &ast[i]);
        proof {
            assert(out@ + items_text(im.skip(i + 1)) =~= out_pre + items_text(
                im.skip(i as int),
            ));
        }
        i = i + 1;
    }
    proof {
        assert(im.skip(k as int) =~= Seq::<ItemModel>::empty());
        assert(out@ + Seq::<char>::empty() =~= out@);
        assert(out@ =~= generated_text(im));
    }
    out
}

} // verus!
