//! First-slice elaborator: declares islands, nodes and relation kinds from a
//! parsed island-language module into an [`IslandStore`].
//!
//! Does **not** prove axioms or theorems. Surface `connection A <-> B` only
//! registers bidirectional candidate skeletons.

use vstd::prelude::*;
use crate::types::{EdgeKind, IslandId, MetisError, NodeId};
use crate::island::{Island, IslandStore};
use crate::keys::{kind_code, lemma_kind_code_injective};
use crate::graph::NodeView;
use crate::admission::WorldId;
use crate::connection::ConnectionClass;
use vstd::utf8::{encode_utf8, encode_utf8_decode_utf8};

verus! {

/// One declaration inside an island body, as the lowering reads it.
#[derive(Clone, Debug, PartialEq, Eq)]
pub enum ItemDecl {
    /// `node Name`
    Node(String),
    /// `relation Name ...`
    Relation(String),
    /// `axiom Name: ...` (formula not executed)
    Axiom(String),
    /// `theorem Name: ...` (formula not proved)
    Theorem(String),
    /// `connection Left <-> Right { ... }`
    Connection(String, String),
    /// `use Name`
    Use(String),
    /// `rewrites { ... }` (ignored by this slice)
    Rewrites,
}

/// One island declaration; the name `_` marks a top-level holder of connections.
#[derive(Clone, Debug, PartialEq, Eq)]
pub struct IslandDecl {
    pub name: String,
    pub items: Vec<ItemDecl>,
}

/// A parsed module: its island declarations in source order.
#[derive(Clone, Debug, PartialEq, Eq)]
pub struct ModuleDecl {
    pub islands: Vec<IslandDecl>,
}

/// Result of lowering a parsed module into a core-facing store.
pub struct LoweringResult {
    /// Populated island store (accepted worlds).
    pub store: IslandStore,
    /// `(island, node_name, node)`: the interned label node of each declared
    /// node name, once per name, in order of first declaration.
    pub nodes: Vec<(IslandId, String, NodeId)>,
    /// `(island, relation_name, kind)`: the generating kind of each declared
    /// relation name, once per name; a repeated name keeps its latest kind.
    pub relations: Vec<(IslandId, String, EdgeKind)>,
    /// Axiom names recorded per island (formulas not executed).
    pub axioms: Vec<(IslandId, String)>,
    /// Theorem names recorded per island (formulas not proved).
    pub theorems: Vec<(IslandId, String)>,
}

impl Default for LoweringResult {
    fn default() -> (r: Self)
        ensures
            store_lowered(r.store, Seq::empty()),
            r.store.spec_connections().len() == 0,
            r.nodes@.len() == 0,
            r.relations@.len() == 0,
            r.axioms@.len() == 0,
            r.theorems@.len() == 0,
    {
        LoweringResult {
            store: IslandStore::new(),
            nodes: Vec::new(),
            relations: Vec::new(),
            axioms: Vec::new(),
            theorems: Vec::new(),
        }
    }
}

/// Node names among the first `j` items, each once, in order of first declaration.
pub open spec fn distinct_nodes(items: Seq<ItemDecl>, j: int) -> Seq<Seq<char>>
    decreases j,
{
    if j <= 0 {
        Seq::empty()
    } else {
        let prev = distinct_nodes(items, j - 1);
        match items[j - 1] {
            ItemDecl::Node(n) => if prev.contains(n@) { prev } else { prev.push(n@) },
            _ => prev,
        }
    }
}

/// Number of relation declarations among the first `j` items.
pub open spec fn rel_count(items: Seq<ItemDecl>, j: int) -> nat
    decreases j,
{
    if j <= 0 {
        0
    } else {
        rel_count(items, j - 1) + if items[j - 1] is Relation { 1nat } else { 0nat }
    }
}

/// Relation names among the first `j` items, each once in order of first
/// declaration, with the kind of its latest declaration. Relations are numbered
/// from `base` in declaration order.
pub open spec fn rel_rows(items: Seq<ItemDecl>, j: int, base: nat) -> Seq<(Seq<char>, EdgeKind)>
    decreases j,
{
    if j <= 0 {
        Seq::empty()
    } else {
        let prev = rel_rows(items, j - 1, base);
        match items[j - 1] {
            ItemDecl::Relation(n) => {
                let row = (n@, EdgeKind::Custom((base + rel_count(items, j - 1)) as u16));
                if exists|i: int| 0 <= i < prev.len() && (#[trigger] prev[i]).0 == n@ {
                    prev.update(choose|i: int| 0 <= i < prev.len() && (#[trigger] prev[i]).0 == n@, row)
                } else {
                    prev.push(row)
                }
            },
            _ => prev,
        }
    }
}

/// Names of `use` items among the first `j` items, in order.
pub open spec fn use_names(items: Seq<ItemDecl>, j: int) -> Seq<Seq<char>>
    decreases j,
{
    if j <= 0 {
        Seq::empty()
    } else {
        let prev = use_names(items, j - 1);
        match items[j - 1] {
            ItemDecl::Use(n) => prev.push(n@),
            _ => prev,
        }
    }
}

/// Names of axioms among the first `j` items, in order.
pub open spec fn axiom_names(items: Seq<ItemDecl>, j: int) -> Seq<Seq<char>>
    decreases j,
{
    if j <= 0 {
        Seq::empty()
    } else {
        let prev = axiom_names(items, j - 1);
        match items[j - 1] {
            ItemDecl::Axiom(n) => prev.push(n@),
            _ => prev,
        }
    }
}

/// Names of theorems among the first `j` items, in order.
pub open spec fn theorem_names(items: Seq<ItemDecl>, j: int) -> Seq<Seq<char>>
    decreases j,
{
    if j <= 0 {
        Seq::empty()
    } else {
        let prev = theorem_names(items, j - 1);
        match items[j - 1] {
            ItemDecl::Theorem(n) => prev.push(n@),
            _ => prev,
        }
    }
}

/// `(left, right)` of the connection items among the first `j` items, in order.
pub open spec fn conn_pairs(items: Seq<ItemDecl>, j: int) -> Seq<(Seq<char>, Seq<char>)>
    decreases j,
{
    if j <= 0 {
        Seq::empty()
    } else {
        let prev = conn_pairs(items, j - 1);
        match items[j - 1] {
            ItemDecl::Connection(l, r) => prev.push((l@, r@)),
            _ => prev,
        }
    }
}

/// Kind codes an island declares: `Equal`, `In` and its `count` relations
/// numbered from `base`.
pub open spec fn declared_kinds(base: nat, count: nat) -> Set<u64>
    decreases count,
{
    if count == 0 {
        Set::empty().insert(kind_code(EdgeKind::Equal)).insert(kind_code(EdgeKind::In))
    } else {
        declared_kinds(base, (count - 1) as nat).insert(kind_code(EdgeKind::Custom((base + count - 1) as u16)))
    }
}

/// The graph node of a declared node name: a bare label holding its UTF-8 bytes.
pub open spec fn label_view(name: Seq<char>) -> NodeView {
    NodeView { structural: Seq::empty(), judgments: Seq::empty(), label: Some(encode_utf8(name)) }
}

/// An island's items cannot all be lowered: numbering its relations from `base`
/// would reach `u16::MAX`, or it declares more than `u32::MAX` distinct nodes.
pub open spec fn items_overflow(items: Seq<ItemDecl>, base: nat) -> bool {
    ||| base + rel_count(items, items.len() as int) > u16::MAX
    ||| distinct_nodes(items, items.len() as int).len() > u32::MAX
}

pub open spec fn str_views(v: Seq<String>) -> Seq<Seq<char>> {
    v.map_values(|s: String| s@)
}

pub open spec fn node_pairs_view(v: Seq<(String, NodeId)>) -> Seq<(Seq<char>, NodeId)> {
    v.map_values(|t: (String, NodeId)| (t.0@, t.1))
}

pub open spec fn kind_pairs_view(v: Seq<(String, EdgeKind)>) -> Seq<(Seq<char>, EdgeKind)> {
    v.map_values(|t: (String, EdgeKind)| (t.0@, t.1))
}

pub open spec fn conn_pairs_view(v: Seq<(String, String)>) -> Seq<(Seq<char>, Seq<char>)> {
    v.map_values(|t: (String, String)| (t.0@, t.1@))
}

/// `(name, node)` rows for distinct node names: the `i`-th name is node `i + 1`.
pub open spec fn numbered_nodes(names: Seq<Seq<char>>) -> Seq<(Seq<char>, NodeId)> {
    Seq::new(names.len(), |i: int| (names[i], NodeId((i + 1) as u32)))
}

proof fn lemma_encode_injective(a: Seq<char>, b: Seq<char>)
    requires
        encode_utf8(a) == encode_utf8(b),
    ensures
        a == b,
{
    encode_utf8_decode_utf8(a);
    encode_utf8_decode_utf8(b);
}

proof fn lemma_distinct_nodes_grow(items: Seq<ItemDecl>, j: int, k: int)
    requires
        0 <= j <= k,
    ensures
        distinct_nodes(items, j).len() <= distinct_nodes(items, k).len(),
        rel_count(items, j) <= rel_count(items, k),
    decreases k - j,
{
    if j < k {
        lemma_distinct_nodes_grow(items, j, k - 1);
    }
}

proof fn lemma_distinct_nodes_unique(items: Seq<ItemDecl>, j: int)
    ensures
        distinct_nodes(items, j).no_duplicates(),
    decreases j,
{
    if j > 0 {
        lemma_distinct_nodes_unique(items, j - 1);
    }
}

/// The items that declare an axiom.
pub open spec fn axiom_item() -> spec_fn(ItemDecl) -> bool {
    |it: ItemDecl| it is Axiom
}

/// The items that declare a theorem.
pub open spec fn theorem_item() -> spec_fn(ItemDecl) -> bool {
    |it: ItemDecl| it is Theorem
}

/// The items that use another island.
pub open spec fn use_item() -> spec_fn(ItemDecl) -> bool {
    |it: ItemDecl| it is Use
}

/// The items that declare a connection.
pub open spec fn connection_item() -> spec_fn(ItemDecl) -> bool {
    |it: ItemDecl| it is Connection
}

/// The items that declare a relation.
pub open spec fn relation_item() -> spec_fn(ItemDecl) -> bool {
    |it: ItemDecl| it is Relation
}

/// The name an item declares, as a function.
pub open spec fn declared_name() -> spec_fn(ItemDecl) -> Seq<char> {
    |it: ItemDecl| item_name(it)
}

/// Both ends of a connection item, as a function.
pub open spec fn declared_ends() -> spec_fn(ItemDecl) -> (Seq<char>, Seq<char>) {
    |it: ItemDecl| item_ends(it)
}

/// The name an item declares (the left end, for a connection).
pub open spec fn item_name(it: ItemDecl) -> Seq<char> {
    match it {
        ItemDecl::Node(n) => n@,
        ItemDecl::Relation(n) => n@,
        ItemDecl::Axiom(n) => n@,
        ItemDecl::Theorem(n) => n@,
        ItemDecl::Connection(l, _) => l@,
        ItemDecl::Use(n) => n@,
        ItemDecl::Rewrites => Seq::empty(),
    }
}

/// Both ends of a connection item.
pub open spec fn item_ends(it: ItemDecl) -> (Seq<char>, Seq<char>) {
    match it {
        ItemDecl::Connection(l, r) => (l@, r@),
        _ => (Seq::empty(), Seq::empty()),
    }
}

/// The per-island tables of a body list what its items declare, item by item:
/// the axioms are the names of exactly its `axiom` items in order (a theorem is
/// never recorded as an axiom), likewise theorems, `use` items and connections;
/// it has one relation number per `relation` item; and its distinct node names
/// are the names of its `node` items, each once.
pub proof fn law_item_tables(items: Seq<ItemDecl>)
    ensures
        axiom_names(items, items.len() as int) == items.filter(axiom_item()).map_values(declared_name()),
        theorem_names(items, items.len() as int) == items.filter(theorem_item()).map_values(declared_name()),
        use_names(items, items.len() as int) == items.filter(use_item()).map_values(declared_name()),
        conn_pairs(items, items.len() as int) == items.filter(connection_item()).map_values(declared_ends()),
        rel_count(items, items.len() as int) == items.filter(relation_item()).len(),
        distinct_nodes(items, items.len() as int).no_duplicates(),
        forall|name: Seq<char>| distinct_nodes(items, items.len() as int).contains(name) <==> exists|k: int|
            0 <= k < items.len() && (#[trigger] items[k]) is Node && item_name(items[k]) == name,
{
    lemma_item_tables_prefix(items, items.len() as int);
    assert(items.take(items.len() as int) == items);
}

proof fn lemma_item_tables_prefix(items: Seq<ItemDecl>, j: int)
    requires
        0 <= j <= items.len(),
    ensures
        axiom_names(items, j) == items.take(j).filter(axiom_item()).map_values(declared_name()),
        theorem_names(items, j) == items.take(j).filter(theorem_item()).map_values(declared_name()),
        use_names(items, j) == items.take(j).filter(use_item()).map_values(declared_name()),
        conn_pairs(items, j) == items.take(j).filter(connection_item()).map_values(declared_ends()),
        rel_count(items, j) == items.take(j).filter(relation_item()).len(),
        distinct_nodes(items, j).no_duplicates(),
        forall|name: Seq<char>| distinct_nodes(items, j).contains(name) <==> exists|k: int|
            0 <= k < j && (#[trigger] items[k]) is Node && item_name(items[k]) == name,
    decreases j,
{
    reveal(Seq::filter);
    if j == 0 {
        assert(items.take(0) =~= Seq::<ItemDecl>::empty());
    } else {
        lemma_item_tables_prefix(items, j - 1);
        let t = items.take(j);
        assert(t.drop_last() =~= items.take(j - 1));
        assert(t.last() == items[j - 1]);
        let it = items[j - 1];
        let fa = t.drop_last().filter(axiom_item());
        assert(t.filter(axiom_item()) == if axiom_item()(it) { fa.push(it) } else { fa });
        assert(fa.push(it).map_values(declared_name()) =~= fa.map_values(declared_name()).push(
            declared_name()(it)));
        let ft = t.drop_last().filter(theorem_item());
        assert(t.filter(theorem_item()) == if theorem_item()(it) { ft.push(it) } else { ft });
        assert(ft.push(it).map_values(declared_name()) =~= ft.map_values(declared_name()).push(
            declared_name()(it)));
        let fu = t.drop_last().filter(use_item());
        assert(t.filter(use_item()) == if use_item()(it) { fu.push(it) } else { fu });
        assert(fu.push(it).map_values(declared_name()) =~= fu.map_values(declared_name()).push(
            declared_name()(it)));
        let fc = t.drop_last().filter(connection_item());
        assert(t.filter(connection_item()) == if connection_item()(it) { fc.push(it) } else { fc });
        assert(fc.push(it).map_values(declared_ends()) =~= fc.map_values(declared_ends()).push(
            declared_ends()(it)));
        let fr = t.drop_last().filter(relation_item());
        assert(t.filter(relation_item()) == if relation_item()(it) { fr.push(it) } else { fr });
        let prev = distinct_nodes(items, j - 1);
        assert forall|name: Seq<char>| distinct_nodes(items, j).contains(name) <==> exists|k: int|
            0 <= k < j && (#[trigger] items[k]) is Node && item_name(items[k]) == name by {
            if distinct_nodes(items, j).contains(name) && !prev.contains(name) {
                assert(items[j - 1] is Node && item_name(items[j - 1]) == name);
            }
            if exists|k: int| 0 <= k < j && (#[trigger] items[k]) is Node && item_name(items[k]) == name {
                let k = choose|k: int| 0 <= k < j && (#[trigger] items[k]) is Node && item_name(items[k]) == name;
                if k == j - 1 {
                    if !prev.contains(name) {
                        assert(distinct_nodes(items, j) == prev.push(name));
                        assert(prev.push(name)[prev.len() as int] == name);
                    }
                } else {
                    assert(prev.contains(name));
                    let i = choose|i: int| 0 <= i < prev.len() && prev[i] == name;
                    assert(distinct_nodes(items, j)[i] == name);
                }
            }
        }
    }
}

/// An island declares `Equal`, `In`, and the custom kinds numbered from `base`
/// for its `count` relations, and no other kind.
pub proof fn law_declared_kinds(base: nat, count: nat, k: EdgeKind)
    requires
        base + count <= u16::MAX + 1,
    ensures
        declared_kinds(base, count).contains(kind_code(k)) <==> {
            ||| k == EdgeKind::Equal
            ||| k == EdgeKind::In
            ||| k matches EdgeKind::Custom(c) && base <= c < base + count
        },
    decreases count,
{
    if count > 0 {
        law_declared_kinds(base, (count - 1) as nat, k);
        lemma_kind_code_injective(k, EdgeKind::Custom((base + count - 1) as u16));
    } else {
        lemma_kind_code_injective(k, EdgeKind::Equal);
        lemma_kind_code_injective(k, EdgeKind::In);
    }
}

/// What one island body contributes besides its graph and rules.
struct IslandLocals {
    nodes: Vec<(String, NodeId)>,
    rels: Vec<(String, EdgeKind)>,
    axioms: Vec<String>,
    theorems: Vec<String>,
    uses: Vec<String>,
}

/// Index of the row named `name`, if any.
fn find_kind_row(rows: &Vec<(String, EdgeKind)>, name: &String) -> (r: Option<usize>)
    ensures
        r matches Some(i) ==> i < rows@.len() && rows@[i as int].0@ == name@,
        r is None ==> forall|i: int| 0 <= i < rows@.len() ==> (#[trigger] rows@[i]).0@ != name@,
{
    let mut i: usize = 0;
    while i < rows.len()
        invariant
            i <= rows@.len(),
            forall|k: int| 0 <= k < i ==> (#[trigger] rows@[k]).0@ != name@,
        decreases rows.len() - i,
    {
        if rows[i].0 == *name {
            return Some(i);
        }
        i = i + 1;
    }
    None
}

/// Lower the items of one island into its staging body, numbering its
/// relations from `*next_custom` and queueing its connections.
fn lower_items(
    isl: &mut Island,
    items: &Vec<ItemDecl>,
    next_custom: &mut u16,
    pending: &mut Vec<(String, String)>,
) -> (r: Result<IslandLocals, MetisError>)
    requires
        old(isl).graph.node_len() == 0,
        old(isl).graph.edge_len() == 0,
        old(isl).rules.signature.declared() == declared_kinds(*old(next_custom) as nat, 0),
    ensures
        ({
            let base = *old(next_custom) as nat;
            let n = items@.len() as int;
            &&& r is Err <==> items_overflow(items@, base)
            &&& r is Err ==> r == Err::<IslandLocals, MetisError>(MetisError::Capacity)
            &&& r matches Ok(loc) ==> {
                &&& *final(next_custom) as nat == base + rel_count(items@, n)
                &&& final(isl).graph.node_len() == distinct_nodes(items@, n).len()
                &&& final(isl).graph.edge_len() == 0
                &&& forall|i: int| 0 <= i < distinct_nodes(items@, n).len() ==> #[trigger] final(isl).graph.node_at(i)
                    == label_view(distinct_nodes(items@, n)[i])
                &&& final(isl).rules.signature.declared() == declared_kinds(base, rel_count(items@, n))
                &&& final(isl).rules.transforms == old(isl).rules.transforms
                &&& final(isl).name == old(isl).name
                &&& final(isl).accepted == old(isl).accepted
                &&& final(isl).version == old(isl).version
                &&& final(isl).parents == old(isl).parents
                &&& node_pairs_view(loc.nodes@) == numbered_nodes(distinct_nodes(items@, n))
                &&& kind_pairs_view(loc.rels@) == rel_rows(items@, n, base)
                &&& str_views(loc.axioms@) == axiom_names(items@, n)
                &&& str_views(loc.theorems@) == theorem_names(items@, n)
                &&& str_views(loc.uses@) == use_names(items@, n)
                &&& conn_pairs_view(final(pending)@) == conn_pairs_view(old(pending)@) + conn_pairs(items@, n)
                &&& str_views(loc.axioms@) == items@.filter(axiom_item()).map_values(declared_name())
                &&& str_views(loc.theorems@) == items@.filter(theorem_item()).map_values(declared_name())
            }
        }),
{
    proof {
        law_item_tables(items@);
    }
    let ghost base = *next_custom as nat;
    let mut loc = IslandLocals {
        nodes: Vec::new(),
        rels: Vec::new(),
        axioms: Vec::new(),
        theorems: Vec::new(),
        uses: Vec::new(),
    };
    let mut j: usize = 0;
    proof {
        assert(node_pairs_view(loc.nodes@) =~= numbered_nodes(distinct_nodes(items@, 0)));
        assert(kind_pairs_view(loc.rels@) =~= rel_rows(items@, 0, base));
        assert(str_views(loc.axioms@) =~= axiom_names(items@, 0));
        assert(str_views(loc.theorems@) =~= theorem_names(items@, 0));
        assert(str_views(loc.uses@) =~= use_names(items@, 0));
        assert(conn_pairs_view(pending@) =~= conn_pairs_view(old(pending)@) + conn_pairs(items@, 0));
    }
    while j < items.len()
        invariant
            j <= items@.len(),
            base == *old(next_custom) as nat,
            *next_custom as nat == base + rel_count(items@, j as int),
            isl.graph.node_len() == distinct_nodes(items@, j as int).len(),
            isl.graph.node_len() <= u32::MAX,
            isl.graph.edge_len() == 0,
            forall|i: int| 0 <= i < distinct_nodes(items@, j as int).len() ==> #[trigger] isl.graph.node_at(i)
                == label_view(distinct_nodes(items@, j as int)[i]),
            isl.rules.signature.declared() == declared_kinds(base, rel_count(items@, j as int)),
            isl.rules.transforms == old(isl).rules.transforms,
            isl.name == old(isl).name,
            isl.accepted == old(isl).accepted,
            isl.version == old(isl).version,
            isl.parents == old(isl).parents,
            node_pairs_view(loc.nodes@) == numbered_nodes(distinct_nodes(items@, j as int)),
            kind_pairs_view(loc.rels@) == rel_rows(items@, j as int, base),
            forall|a: int, b: int| 0 <= a < b < loc.rels@.len() ==> (#[trigger] loc.rels@[a]).0@
                != (#[trigger] loc.rels@[b]).0@,
            str_views(loc.axioms@) == axiom_names(items@, j as int),
            str_views(loc.theorems@) == theorem_names(items@, j as int),
            str_views(loc.uses@) == use_names(items@, j as int),
            conn_pairs_view(pending@) == conn_pairs_view(old(pending)@) + conn_pairs(items@, j as int),
        decreases items.len() - j,
    {
        let ghost jj = j as int;
        let ghost dn = distinct_nodes(items@, jj);
        proof {
            lemma_distinct_nodes_unique(items@, jj);
        }
        match &items[j] {
            ItemDecl::Node(name) => {
                let before = isl.graph.node_count();
                let ghost g0 = isl.graph;
                let nid = isl.graph.intern_label(name.as_str().as_bytes());
                let nid = match nid {
                    Ok(x) => x,
                    Err(e) => {
                        proof {
                            assert(!dn.contains(name@)) by {
                                if dn.contains(name@) {
                                    let i = choose|i: int| 0 <= i < dn.len() && dn[i] == name@;
                                    assert(isl.graph.node_at(i) == label_view(dn[i]));
                                    assert(isl.graph.has_node(NodeId((i + 1) as u32)));
                                }
                            }
                            assert(distinct_nodes(items@, jj + 1) == dn.push(name@));
                            lemma_distinct_nodes_grow(items@, jj + 1, items@.len() as int);
                        }
                        return Err(e);
                    },
                };
                if isl.graph.node_count() > before {
                    proof {
                        assert(!dn.contains(name@)) by {
                            if dn.contains(name@) {
                                let i = choose|i: int| 0 <= i < dn.len() && dn[i] == name@;
                                assert(g0.node_at(i) == label_view(dn[i]));
                                assert(g0.has_node(NodeId((i + 1) as u32)));
                            }
                        }
                    }
                    let ghost before_rows = loc.nodes@;
                    loc.nodes.push((name.clone(), nid));
                    proof {
                        assert(g0.label_node(encode_utf8(name@)) is None);
                        assert(g0.appends_node(&isl.graph, label_view(name@)));
                        assert(nid == NodeId((dn.len() + 1) as u32));
                        assert(distinct_nodes(items@, jj + 1) == dn.push(name@));
                        assert forall|i: int| 0 <= i < dn.len() + 1 implies #[trigger] isl.graph.node_at(i)
                            == label_view(dn.push(name@)[i]) by {
                            if i < dn.len() {
                                assert(g0.node_at(i) == label_view(dn[i]));
                            }
                        }
                        assert(node_pairs_view(loc.nodes@) =~= node_pairs_view(before_rows).push((name@, nid)));
                        assert(numbered_nodes(dn.push(name@)) =~= numbered_nodes(dn).push((name@, nid)));
                    }
                } else {
                    proof {
                        let x = nid;
                        let i = x.0 - 1;
                        assert(dn[i] == name@) by {
                            lemma_encode_injective(dn[i], name@);
                        }
                        assert(distinct_nodes(items@, jj + 1) == dn);
                    }
                }
            },
            ItemDecl::Relation(name) => {
                if *next_custom == u16::MAX {
                    proof {
                        assert(items@[jj] is Relation);
                        assert(rel_count(items@, jj + 1) == rel_count(items@, jj) + 1);
                        assert(base + rel_count(items@, jj) == u16::MAX);
                        lemma_distinct_nodes_grow(items@, jj + 1, items@.len() as int);
                        assert(base + rel_count(items@, items@.len() as int) > u16::MAX);
                        assert(items_overflow(items@, base));
                    }
                    return Err(MetisError::Capacity);
                }
                let kind = EdgeKind::Custom(*next_custom);
                *next_custom = *next_custom + 1;
                isl.rules.declare_kind(kind);
                let ghost prev = rel_rows(items@, jj, base);
                let ghost row = (name@, kind);
                let ghost before_rows = loc.rels@;
                proof {
                    assert(kind == EdgeKind::Custom((base + rel_count(items@, jj)) as u16));
                    assert(rel_count(items@, jj + 1) == rel_count(items@, jj) + 1);
                }
                match find_kind_row(&loc.rels, name) {
                    Some(i) => {
                        loc.rels.set(i, (name.clone(), kind));
                        proof {
                            assert(prev[i as int].0 == name@);
                            let c = choose|c: int| 0 <= c < prev.len() && (#[trigger] prev[c]).0 == name@;
                            if c != i as int {
                                if c < i as int {
                                    assert(before_rows[c].0@ != before_rows[i as int].0@);
                                } else {
                                    assert(before_rows[i as int].0@ != before_rows[c].0@);
                                }
                            }
                            assert(rel_rows(items@, jj + 1, base) == prev.update(i as int, row));
                            assert(kind_pairs_view(loc.rels@) =~= prev.update(i as int, row));
                            assert forall|a: int, b: int| 0 <= a < b < loc.rels@.len() implies (#[trigger] loc.rels@[a]).0@
                                != (#[trigger] loc.rels@[b]).0@ by {
                                if a != i && b != i {
                                    assert(loc.rels@[a] == before_rows[a]);
                                    assert(loc.rels@[b] == before_rows[b]);
                                } else if a == i {
                                    assert(loc.rels@[b] == before_rows[b]);
                                    assert(before_rows[a].0@ != before_rows[b].0@);
                                } else {
                                    assert(loc.rels@[a] == before_rows[a]);
                                    assert(before_rows[a].0@ != before_rows[b].0@);
                                }
                            }
                        }
                    },
                    None => {
                        loc.rels.push((name.clone(), kind));
                        proof {
                            assert(!exists|c: int| 0 <= c < prev.len() && (#[trigger] prev[c]).0 == name@) by {
                                if exists|c: int| 0 <= c < prev.len() && (#[trigger] prev[c]).0 == name@ {
                                    let c = choose|c: int| 0 <= c < prev.len() && (#[trigger] prev[c]).0 == name@;
                                    assert(before_rows[c].0@ != name@);
                                }
                            }
                            assert(rel_rows(items@, jj + 1, base) == prev.push(row));
                            assert(kind_pairs_view(loc.rels@) =~= prev.push(row));
                            assert forall|a: int, b: int| 0 <= a < b < loc.rels@.len() implies (#[trigger] loc.rels@[a]).0@
                                != (#[trigger] loc.rels@[b]).0@ by {
                                assert(loc.rels@[a] == before_rows[a]);
                                if b < before_rows.len() {
                                    assert(loc.rels@[b] == before_rows[b]);
                                }
                            }
                        }
                    },
                }
            },
            ItemDecl::Axiom(name) => {
                loc.axioms.push(name.clone());
                proof {
                    assert(str_views(loc.axioms@) =~= axiom_names(items@, jj + 1));
                }
            },
            ItemDecl::Theorem(name) => {
                loc.theorems.push(name.clone());
                proof {
                    assert(str_views(loc.theorems@) =~= theorem_names(items@, jj + 1));
                }
            },
            ItemDecl::Connection(left, right) => {
                let ghost before_pending = pending@;
                pending.push((left.clone(), right.clone()));
                proof {
                    assert(conn_pairs_view(pending@) =~= conn_pairs_view(before_pending).push((left@, right@)));
                    assert(conn_pairs(items@, jj + 1) == conn_pairs(items@, jj).push((left@, right@)));
                    assert(conn_pairs_view(pending@) =~= conn_pairs_view(old(pending)@) + conn_pairs(items@, jj + 1));
                }
            },
            ItemDecl::Use(name) => {
                loc.uses.push(name.clone());
                proof {
                    assert(str_views(loc.uses@) =~= use_names(items@, jj + 1));
                }
            },
            ItemDecl::Rewrites => {},
        }
        j = j + 1;
    }
    Ok(loc)
}

/// The declaration is the top-level holder of connections, named `_`.
pub open spec fn is_holder(d: IslandDecl) -> bool {
    d.name@ == "_"@
}

/// Names of the lowered islands, in acceptance order.
pub open spec fn kept_names(kept: Seq<(IslandDecl, nat)>) -> Seq<Seq<char>> {
    kept.map_values(|e: (IslandDecl, nat)| e.0.name@)
}

/// The number the next relation gets, once the islands of `kept` are lowered
/// (each entry pairs an island with the number of its first relation).
pub open spec fn next_rel(kept: Seq<(IslandDecl, nat)>) -> nat {
    if kept.len() == 0 {
        1
    } else {
        kept.last().1 + rel_count(kept.last().0.items@, kept.last().0.items@.len() as int)
    }
}

/// Outcome of lowering island `d` after the islands of `kept`: the failure, or
/// `kept` extended by `d` and the number of its first relation.
pub open spec fn island_outcome(kept: Seq<(IslandDecl, nat)>, d: IslandDecl) -> Result<
    Seq<(IslandDecl, nat)>,
    MetisError,
> {
    let names = kept_names(kept);
    let base = next_rel(kept);
    let items = d.items@;
    let uses = use_names(items, items.len() as int);
    if kept.len() >= u32::MAX {
        Err(MetisError::Capacity)
    } else if items_overflow(items, base) {
        Err(MetisError::Capacity)
    } else if exists|p: int| 0 <= p < uses.len() && !names.contains(#[trigger] uses[p]) {
        Err(MetisError::IslandNotFound)
    } else if names.contains(d.name@) {
        Err(MetisError::InvalidHandle)
    } else {
        Ok(kept.push((d, base)))
    }
}

/// Accepted island `a` of `table` is island `d` lowered with its relations
/// numbered from `base`: its graph holds one label node per distinct node name,
/// its signature the built-in and its own kinds, and its parents the islands
/// its `use` items name.
pub open spec fn island_lowered(table: Seq<(IslandId, Island)>, a: int, d: IslandDecl, base: nat) -> bool {
    let isl = table[a].1;
    let items = d.items@;
    let n = items.len() as int;
    let dn = distinct_nodes(items, n);
    let uses = use_names(items, n);
    &&& table[a].0.raw() == a + 1
    &&& isl.name@ == d.name@
    &&& isl.accepted
    &&& isl.version == 1
    &&& isl.graph.node_len() == dn.len()
    &&& isl.graph.edge_len() == 0
    &&& forall|i: int| 0 <= i < dn.len() ==> #[trigger] isl.graph.node_at(i) == label_view(dn[i])
    &&& isl.rules.signature.declared() == declared_kinds(base, rel_count(items, n))
    &&& isl.rules.transforms@.len() == 0
    &&& isl.parents@.len() == uses.len()
    &&& forall|p: int| 0 <= p < uses.len() ==> {
        let w = #[trigger] isl.parents@[p];
        &&& w.version == 1
        &&& 1 <= w.island.raw() <= a
        &&& table[w.island.raw() - 1].1.name@ == uses[p]
    }
}

/// The store holds exactly the islands of `kept`, lowered, and nothing staged.
pub open spec fn store_lowered(store: IslandStore, kept: Seq<(IslandDecl, nat)>) -> bool {
    &&& store.wf()
    &&& store.spec_staging() is None
    &&& store.table().len() == kept.len()
    &&& store.spec_next_id() == kept.len()
    &&& forall|a: int| 0 <= a < kept.len() ==> island_lowered(store.table(), a, (#[trigger] kept[a]).0, kept[a].1)
}

proof fn lemma_lowered_frame(t1: Seq<(IslandId, Island)>, t2: Seq<(IslandId, Island)>, a: int, d: IslandDecl, base: nat)
    requires
        0 <= a < t1.len() <= t2.len(),
        forall|q: int| 0 <= q < t1.len() ==> t2[q] == t1[q],
        island_lowered(t1, a, d, base),
    ensures
        island_lowered(t2, a, d, base),
{
    let uses = use_names(d.items@, d.items@.len() as int);
    assert forall|p: int| 0 <= p < uses.len() implies {
        let w = #[trigger] t2[a].1.parents@[p];
        &&& w.version == 1
        &&& 1 <= w.island.raw() <= a
        &&& t2[w.island.raw() - 1].1.name@ == uses[p]
    } by {
        let w = t1[a].1.parents@[p];
        assert(t2[w.island.raw() - 1] == t1[w.island.raw() - 1]);
    }
}

/// Names of a lowered store's table are the names of `kept`.
proof fn lemma_names_lowered(store: IslandStore, kept: Seq<(IslandDecl, nat)>, name: Seq<char>)
    requires
        store.table().len() == kept.len(),
        forall|a: int| 0 <= a < kept.len() ==> island_lowered(store.table(), a, (#[trigger] kept[a]).0, kept[a].1),
    ensures
        store.name_taken(name) == kept_names(kept).contains(name),
{
    let t = store.table();
    if store.name_taken(name) {
        let k = choose|k: int| 0 <= k < t.len() && (#[trigger] t[k]).1.name@ == name;
        assert(island_lowered(t, k, kept[k].0, kept[k].1));
        assert(kept_names(kept)[k] == name);
    }
    if kept_names(kept).contains(name) {
        let k = choose|k: int| 0 <= k < kept.len() && kept_names(kept)[k] == name;
        assert(island_lowered(t, k, kept[k].0, kept[k].1));
        assert(t[k].1.name@ == name);
    }
}

/// Resolve the `use` items of the staging island against the accepted islands.
fn resolve_uses(store: &mut IslandStore, uses: &Vec<String>, Ghost(kept): Ghost<Seq<(IslandDecl, nat)>>) -> (r: Result<
    (),
    MetisError,
>)
    requires
        old(store).wf(),
        old(store).spec_staging() is Some,
        old(store).staged().parents@.len() == 0,
        ({
            let s = *old(store);
            &&& s.table().len() == kept.len()
            &&& forall|a: int| 0 <= a < kept.len() ==> island_lowered(s.table(), a, (#[trigger] kept[a]).0, kept[a].1)
        }),
    ensures
        final(store).wf(),
        r is Err <==> exists|p: int| 0 <= p < uses@.len() && !kept_names(kept).contains(#[trigger] uses@[p]@),
        r is Err ==> r == Err::<(), MetisError>(MetisError::IslandNotFound),
        r is Ok ==> {
            let st = final(store).staged();
            &&& final(store).spec_staging() is Some
            &&& final(store).staged_id() == old(store).staged_id()
            &&& final(store).table() == old(store).table()
            &&& final(store).spec_next_id() == old(store).spec_next_id()
            &&& final(store).spec_connections() == old(store).spec_connections()
            &&& st.graph == old(store).staged().graph
            &&& st.rules == old(store).staged().rules
            &&& st.name == old(store).staged().name
            &&& st.version == old(store).staged().version
            &&& st.accepted == old(store).staged().accepted
            &&& st.parents@.len() == uses@.len()
            &&& forall|p: int| 0 <= p < uses@.len() ==> {
                let w = #[trigger] st.parents@[p];
                &&& w.version == 1
                &&& 1 <= w.island.raw() <= kept.len()
                &&& old(store).table()[w.island.raw() - 1].1.name@ == uses@[p]@
            }
        },
{
    let ghost t0 = store.table();
    let mut p: usize = 0;
    while p < uses.len()
        invariant
            store.wf(),
            p <= uses@.len(),
            store.spec_staging() is Some,
            store.staged_id() == old(store).staged_id(),
            store.table() == t0,
            t0 == old(store).table(),
            t0.len() == kept.len(),
            forall|a: int| 0 <= a < kept.len() ==> island_lowered(t0, a, (#[trigger] kept[a]).0, kept[a].1),
            store.spec_next_id() == old(store).spec_next_id(),
            store.spec_connections() == old(store).spec_connections(),
            store.staged().graph == old(store).staged().graph,
            store.staged().rules == old(store).staged().rules,
            store.staged().name == old(store).staged().name,
            store.staged().version == old(store).staged().version,
            store.staged().accepted == old(store).staged().accepted,
            store.staged().parents@.len() == p,
            forall|q: int| 0 <= q < p ==> kept_names(kept).contains(#[trigger] uses@[q]@),
            forall|q: int| 0 <= q < p ==> {
                let w = #[trigger] store.staged().parents@[q];
                &&& w.version == 1
                &&& 1 <= w.island.raw() <= kept.len()
                &&& t0[w.island.raw() - 1].1.name@ == uses@[q]@
            },
        decreases uses.len() - p,
    {
        let name = &uses[p];
        let ghost s0 = *store;
        let pid = match store.lookup(name.as_str()) {
            Some(x) => x,
            None => {
                proof {
                    let t = store.table();
                    if kept_names(kept).contains(uses@[p as int]@) {
                        let k = choose|k: int| 0 <= k < kept.len() && kept_names(kept)[k] == uses@[p as int]@;
                        assert(island_lowered(t, k, kept[k].0, kept[k].1));
                        assert(t[k].1.name@ == name@);
                    }
                }
                return Err(MetisError::IslandNotFound);
            },
        };
        let parent = match store.get(pid) {
            Ok(isl) => isl.world_id(pid),
            Err(e) => {
                return Err(e);
            },
        };
        proof {
            let t = store.table();
            let a = choose|k: int| 0 <= k < t.len() && (#[trigger] t[k]).0 == pid;
            assert(island_lowered(t, a, kept[a].0, kept[a].1));
            assert(kept_names(kept)[a] == name@);
            assert(parent.island.raw() == a + 1);
        }
        let ghost parents0 = store.staged().parents@;
        let _ = store.add_staging_parent(parent);
        proof {
            assert(store.staged().parents@ == parents0.push(parent));
            assert forall|q: int| 0 <= q < p + 1 implies {
                let w = #[trigger] store.staged().parents@[q];
                &&& w.version == 1
                &&& 1 <= w.island.raw() <= kept.len()
                &&& t0[w.island.raw() - 1].1.name@ == uses@[q]@
            } by {
                if q < p {
                    assert(store.staged().parents@[q] == parents0[q]);
                }
            }
        }
        p = p + 1;
    }
    Ok(())
}

/// Lower one island declaration (not the connection holder) into the store:
/// stage it, declare `Equal`, `In` and its relations, intern its node labels,
/// resolve its `use` items, and accept it under its name.
fn lower_island(
    store: &mut IslandStore,
    d: &IslandDecl,
    next_custom: &mut u16,
    pending: &mut Vec<(String, String)>,
    Ghost(kept): Ghost<Seq<(IslandDecl, nat)>>,
) -> (r: Result<(IslandId, IslandLocals), MetisError>)
    requires
        store_lowered(*old(store), kept),
        *old(next_custom) as nat == next_rel(kept),
    ensures
        island_outcome(kept, *d) is Err <==> r is Err,
        island_outcome(kept, *d) matches Err(e) ==> r == Err::<(IslandId, IslandLocals), MetisError>(e),
        r matches Ok((id, loc)) ==> {
            let base = next_rel(kept);
            let items = d.items@;
            let n = items.len() as int;
            &&& island_outcome(kept, *d) == Ok::<Seq<(IslandDecl, nat)>, MetisError>(kept.push((*d, base)))
            &&& store_lowered(*final(store), kept.push((*d, base)))
            &&& final(store).table().take(kept.len() as int) == old(store).table()
            &&& final(store).spec_connections() == old(store).spec_connections()
            &&& id.raw() == kept.len() + 1
            &&& *final(next_custom) as nat == next_rel(kept.push((*d, base)))
            &&& node_pairs_view(loc.nodes@) == numbered_nodes(distinct_nodes(items, n))
            &&& kind_pairs_view(loc.rels@) == rel_rows(items, n, base)
            &&& str_views(loc.axioms@) == axiom_names(items, n)
            &&& str_views(loc.theorems@) == theorem_names(items, n)
            &&& conn_pairs_view(final(pending)@) == conn_pairs_view(old(pending)@) + conn_pairs(items, n)
        },
{
    let ghost base = next_rel(kept);
    let ghost items = d.items@;
    let ghost n = items.len() as int;
    let ghost uses = use_names(items, n);
    let ghost t0 = store.table();
    let sid = store.open_staging(d.name.as_str())?;
    let _ = store.declare_generating_kind(EdgeKind::Equal);
    let _ = store.declare_generating_kind(EdgeKind::In);
    proof {
        assert(store.staged().rules.signature.declared() =~= declared_kinds(base, 0));
    }
    let loc = {
        let st = match store.staging_mut() {
            Ok(x) => x,
            Err(e) => {
                return Err(e);
            },
        };
        match lower_items(st, &d.items, next_custom, pending) {
            Ok(loc) => loc,
            Err(e) => {
                return Err(e);
            },
        }
    };
    proof {
        assert(!items_overflow(items, base));
    }
    match resolve_uses(store, &loc.uses, Ghost(kept)) {
        Ok(()) => {},
        Err(e) => {
            proof {
                let p = choose|p: int| 0 <= p < loc.uses@.len() && !kept_names(kept).contains(#[trigger] loc.uses@[p]@);
                assert(str_views(loc.uses@)[p] == uses[p]);
            }
            return Err(e);
        },
    }
    proof {
        assert forall|p: int| 0 <= p < uses.len() implies kept_names(kept).contains(#[trigger] uses[p]) by {
            assert(str_views(loc.uses@)[p] == uses[p]);
        }
        lemma_names_lowered(*store, kept, d.name@);
    }
    let ghost s1 = *store;
    let id = match store.accept_staging(d.name.as_str()) {
        Ok(x) => x,
        Err(e) => {
            return Err(e);
        },
    };
    proof {
        let t = store.table();
        let k2 = kept.push((*d, base));
        assert(t.take(kept.len() as int) =~= t0);
        let acc = t[kept.len() as int].1;
        assert(acc.name@ == d.name@);
        assert(acc.version == 1);
        assert(acc.graph == s1.staged().graph);
        assert(acc.graph.node_len() == distinct_nodes(items, n).len());
        assert(acc.rules.signature.declared() == declared_kinds(base, rel_count(items, n)));
        assert(acc.rules.transforms@.len() == 0);
        assert(acc.parents@.len() == uses.len());
        assert(t[kept.len() as int].0.raw() == kept.len() + 1);
        assert forall|a: int| 0 <= a < k2.len() implies island_lowered(t, a, (#[trigger] k2[a]).0, k2[a].1) by {
            if a < kept.len() {
                lemma_lowered_frame(t0, t, a, kept[a].0, kept[a].1);
            } else {
                assert(t[a].1.parents@.len() == uses.len());
                assert forall|p: int| 0 <= p < uses.len() implies {
                    let w = #[trigger] t[a].1.parents@[p];
                    &&& w.version == 1
                    &&& 1 <= w.island.raw() <= a
                    &&& t[w.island.raw() - 1].1.name@ == uses[p]
                } by {
                    let w = t[a].1.parents@[p];
                    assert(str_views(loc.uses@)[p] == uses[p]);
                    assert(t[w.island.raw() - 1] == t0[w.island.raw() - 1]);
                }
            }
        }
        assert(next_rel(k2) == base + rel_count(items, n));
    }
    Ok((id, loc))
}

/// Outcome of lowering the first `k` island declarations: the failure, or the
/// lowered islands, each with the number of its first relation.
pub open spec fn lower_prefix(isls: Seq<IslandDecl>, k: int) -> Result<Seq<(IslandDecl, nat)>, MetisError>
    decreases k,
{
    if k <= 0 {
        Ok(Seq::empty())
    } else {
        match lower_prefix(isls, k - 1) {
            Err(e) => Err(e),
            Ok(kept) => if is_holder(isls[k - 1]) {
                Ok(kept)
            } else {
                island_outcome(kept, isls[k - 1])
            },
        }
    }
}

/// Connections declared by the first `k` island declarations (holders included), in order.
pub open spec fn pending_prefix(isls: Seq<IslandDecl>, k: int) -> Seq<(Seq<char>, Seq<char>)>
    decreases k,
{
    if k <= 0 {
        Seq::empty()
    } else {
        pending_prefix(isls, k - 1) + conn_pairs(isls[k - 1].items@, isls[k - 1].items@.len() as int)
    }
}

/// Outcome of declaring the first `p` connections between the islands `names`:
/// both ends must name an island, and they must differ.
pub open spec fn conn_outcome(names: Seq<Seq<char>>, pend: Seq<(Seq<char>, Seq<char>)>, p: int) -> Result<
    (),
    MetisError,
>
    decreases p,
{
    if p <= 0 {
        Ok(())
    } else {
        match conn_outcome(names, pend, p - 1) {
            Err(e) => Err(e),
            Ok(_) => if !names.contains(pend[p - 1].0) || !names.contains(pend[p - 1].1) {
                Err(MetisError::IslandNotFound)
            } else if pend[p - 1].0 == pend[p - 1].1 {
                Err(MetisError::ConnectionInvalid)
            } else {
                Ok(())
            },
        }
    }
}

/// Outcome of lowering a module: islands in order, then every connection.
pub open spec fn lower_outcome(m: ModuleDecl) -> Result<Seq<(IslandDecl, nat)>, MetisError> {
    let isls = m.islands@;
    match lower_prefix(isls, isls.len() as int) {
        Err(e) => Err(e),
        Ok(kept) => {
            let pend = pending_prefix(isls, isls.len() as int);
            match conn_outcome(kept_names(kept), pend, pend.len() as int) {
                Err(e) => Err(e),
                Ok(_) => Ok(kept),
            }
        },
    }
}

/// `(island, name, node)` rows of the first `a` lowered islands; island `a`
/// has handle `a + 1`.
pub open spec fn node_rows(kept: Seq<(IslandDecl, nat)>, a: int) -> Seq<(u32, Seq<char>, NodeId)>
    decreases a,
{
    if a <= 0 {
        Seq::empty()
    } else {
        let items = kept[a - 1].0.items@;
        node_rows(kept, a - 1) + numbered_nodes(distinct_nodes(items, items.len() as int)).map_values(
            |t: (Seq<char>, NodeId)| (a as u32, t.0, t.1),
        )
    }
}

/// `(island, relation, kind)` rows of the first `a` lowered islands.
pub open spec fn relation_rows(kept: Seq<(IslandDecl, nat)>, a: int) -> Seq<(u32, Seq<char>, EdgeKind)>
    decreases a,
{
    if a <= 0 {
        Seq::empty()
    } else {
        let items = kept[a - 1].0.items@;
        relation_rows(kept, a - 1) + rel_rows(items, items.len() as int, kept[a - 1].1).map_values(
            |t: (Seq<char>, EdgeKind)| (a as u32, t.0, t.1),
        )
    }
}

/// `(island, axiom)` rows of the first `a` lowered islands.
pub open spec fn axiom_rows(kept: Seq<(IslandDecl, nat)>, a: int) -> Seq<(u32, Seq<char>)>
    decreases a,
{
    if a <= 0 {
        Seq::empty()
    } else {
        let items = kept[a - 1].0.items@;
        axiom_rows(kept, a - 1) + axiom_names(items, items.len() as int).map_values(|s: Seq<char>| (a as u32, s))
    }
}

/// `(island, theorem)` rows of the first `a` lowered islands.
pub open spec fn theorem_rows(kept: Seq<(IslandDecl, nat)>, a: int) -> Seq<(u32, Seq<char>)>
    decreases a,
{
    if a <= 0 {
        Seq::empty()
    } else {
        let items = kept[a - 1].0.items@;
        theorem_rows(kept, a - 1) + theorem_names(items, items.len() as int).map_values(
            |s: Seq<char>| (a as u32, s),
        )
    }
}

pub open spec fn node_table_view(v: Seq<(IslandId, String, NodeId)>) -> Seq<(u32, Seq<char>, NodeId)> {
    v.map_values(|t: (IslandId, String, NodeId)| (t.0.raw(), t.1@, t.2))
}

pub open spec fn kind_table_view(v: Seq<(IslandId, String, EdgeKind)>) -> Seq<(u32, Seq<char>, EdgeKind)> {
    v.map_values(|t: (IslandId, String, EdgeKind)| (t.0.raw(), t.1@, t.2))
}

pub open spec fn name_table_view(v: Seq<(IslandId, String)>) -> Seq<(u32, Seq<char>)> {
    v.map_values(|t: (IslandId, String)| (t.0.raw(), t.1@))
}

/// World `w` is the current world of the accepted island named `name`.
pub open spec fn world_named(table: Seq<(IslandId, Island)>, w: WorldId, name: Seq<char>) -> bool {
    &&& w.version == 1
    &&& 1 <= w.island.raw() <= table.len()
    &&& table[w.island.raw() - 1].1.name@ == name
}

/// The first `p` connections are registered, each as a pair of opposite
/// bidirectional skeletons between the islands it names.
pub open spec fn connections_lowered(store: IslandStore, pend: Seq<(Seq<char>, Seq<char>)>, p: int) -> bool {
    let c = store.spec_connections();
    &&& c.len() == 2 * p
    &&& forall|q: int| 0 <= q < p ==> {
        let fwd = #[trigger] c[2 * q];
        let back = c[2 * q + 1];
        &&& fwd.class == ConnectionClass::BidirectionalSkeleton
        &&& back.class == ConnectionClass::BidirectionalSkeleton
        &&& world_named(store.table(), fwd.source, pend[q].0)
        &&& world_named(store.table(), fwd.target, pend[q].1)
        &&& back.source == fwd.target
        &&& back.target == fwd.source
    }
}

/// `out` is the lowering of the islands `kept` with the connections `pend`.
pub open spec fn result_lowered(
    out: LoweringResult,
    kept: Seq<(IslandDecl, nat)>,
    pend: Seq<(Seq<char>, Seq<char>)>,
) -> bool {
    &&& store_lowered(out.store, kept)
    &&& connections_lowered(out.store, pend, pend.len() as int)
    &&& node_table_view(out.nodes@) == node_rows(kept, kept.len() as int)
    &&& kind_table_view(out.relations@) == relation_rows(kept, kept.len() as int)
    &&& name_table_view(out.axioms@) == axiom_rows(kept, kept.len() as int)
    &&& name_table_view(out.theorems@) == theorem_rows(kept, kept.len() as int)
}

proof fn lemma_prefix_err_stays(isls: Seq<IslandDecl>, k: int, e: MetisError)
    requires
        0 <= k <= isls.len(),
        lower_prefix(isls, k) == Err::<Seq<(IslandDecl, nat)>, MetisError>(e),
    ensures
        lower_prefix(isls, isls.len() as int) == Err::<Seq<(IslandDecl, nat)>, MetisError>(e),
    decreases isls.len() - k,
{
    if k < isls.len() {
        lemma_prefix_err_stays(isls, k + 1, e);
    }
}

proof fn lemma_conn_err_stays(names: Seq<Seq<char>>, pend: Seq<(Seq<char>, Seq<char>)>, p: int, e: MetisError)
    requires
        0 <= p <= pend.len(),
        conn_outcome(names, pend, p) == Err::<(), MetisError>(e),
    ensures
        conn_outcome(names, pend, pend.len() as int) == Err::<(), MetisError>(e),
    decreases pend.len() - p,
{
    if p < pend.len() {
        lemma_conn_err_stays(names, pend, p + 1, e);
    }
}

/// Queue the connection items of the holder declaration.
fn collect_connections(items: &Vec<ItemDecl>, pending: &mut Vec<(String, String)>)
    ensures
        conn_pairs_view(final(pending)@) == conn_pairs_view(old(pending)@) + conn_pairs(items@, items@.len() as int),
{
    let mut j: usize = 0;
    proof {
        assert(conn_pairs_view(pending@) =~= conn_pairs_view(old(pending)@) + conn_pairs(items@, 0));
    }
    while j < items.len()
        invariant
            j <= items@.len(),
            conn_pairs_view(pending@) == conn_pairs_view(old(pending)@) + conn_pairs(items@, j as int),
        decreases items.len() - j,
    {
        if let ItemDecl::Connection(left, right) = &items[j] {
            let ghost before = pending@;
            pending.push((left.clone(), right.clone()));
            proof {
                assert(conn_pairs_view(pending@) =~= conn_pairs_view(before).push((left@, right@)));
                assert(conn_pairs(items@, j + 1) == conn_pairs(items@, j as int).push((left@, right@)));
                assert(conn_pairs_view(pending@) =~= conn_pairs_view(old(pending)@) + conn_pairs(items@, j + 1));
            }
        }
        j = j + 1;
    }
}

/// Append one accepted island's rows to the lowering tables.
fn record_island(out: &mut LoweringResult, id: IslandId, loc: IslandLocals)
    ensures
        final(out).store == old(out).store,
        node_table_view(final(out).nodes@) == node_table_view(old(out).nodes@) + node_pairs_view(loc.nodes@).map_values(
            |t: (Seq<char>, NodeId)| (id.raw(), t.0, t.1),
        ),
        kind_table_view(final(out).relations@) == kind_table_view(old(out).relations@) + kind_pairs_view(
            loc.rels@,
        ).map_values(|t: (Seq<char>, EdgeKind)| (id.raw(), t.0, t.1)),
        name_table_view(final(out).axioms@) == name_table_view(old(out).axioms@) + str_views(loc.axioms@).map_values(
            |s: Seq<char>| (id.raw(), s),
        ),
        name_table_view(final(out).theorems@) == name_table_view(old(out).theorems@) + str_views(
            loc.theorems@,
        ).map_values(|s: Seq<char>| (id.raw(), s)),
{
    let mut i: usize = 0;
    while i < loc.nodes.len()
        invariant
            i <= loc.nodes@.len(),
            out.store == old(out).store,
            out.relations == old(out).relations,
            out.axioms == old(out).axioms,
            out.theorems == old(out).theorems,
            node_table_view(out.nodes@) == node_table_view(old(out).nodes@) + node_pairs_view(
                loc.nodes@.take(i as int),
            ).map_values(|t: (Seq<char>, NodeId)| (id.raw(), t.0, t.1)),
        decreases loc.nodes.len() - i,
    {
        let ghost before = out.nodes@;
        out.nodes.push((id, loc.nodes[i].0.clone(), loc.nodes[i].1));
        proof {
            assert(loc.nodes@.take(i + 1) == loc.nodes@.take(i as int).push(loc.nodes@[i as int]));
            assert(node_table_view(out.nodes@) =~= node_table_view(before).push((id.raw(), loc.nodes@[i as int].0@, loc.nodes@[i as int].1)));
            assert(node_table_view(out.nodes@) =~= node_table_view(old(out).nodes@) + node_pairs_view(
                loc.nodes@.take(i + 1),
            ).map_values(|t: (Seq<char>, NodeId)| (id.raw(), t.0, t.1)));
        }
        i = i + 1;
    }
    proof {
        assert(loc.nodes@.take(i as int) == loc.nodes@);
    }
    i = 0;
    while i < loc.rels.len()
        invariant
            i <= loc.rels@.len(),
            out.store == old(out).store,
            out.axioms == old(out).axioms,
            out.theorems == old(out).theorems,
            node_table_view(out.nodes@) == node_table_view(old(out).nodes@) + node_pairs_view(loc.nodes@).map_values(
                |t: (Seq<char>, NodeId)| (id.raw(), t.0, t.1),
            ),
            kind_table_view(out.relations@) == kind_table_view(old(out).relations@) + kind_pairs_view(
                loc.rels@.take(i as int),
            ).map_values(|t: (Seq<char>, EdgeKind)| (id.raw(), t.0, t.1)),
        decreases loc.rels.len() - i,
    {
        let ghost before = out.relations@;
        out.relations.push((id, loc.rels[i].0.clone(), loc.rels[i].1));
        proof {
            assert(loc.rels@.take(i + 1) == loc.rels@.take(i as int).push(loc.rels@[i as int]));
            assert(kind_table_view(out.relations@) =~= kind_table_view(before).push((id.raw(), loc.rels@[i as int].0@, loc.rels@[i as int].1)));
            assert(kind_table_view(out.relations@) =~= kind_table_view(old(out).relations@) + kind_pairs_view(
                loc.rels@.take(i + 1),
            ).map_values(|t: (Seq<char>, EdgeKind)| (id.raw(), t.0, t.1)));
        }
        i = i + 1;
    }
    proof {
        assert(loc.rels@.take(i as int) == loc.rels@);
    }
    i = 0;
    while i < loc.axioms.len()
        invariant
            i <= loc.axioms@.len(),
            out.store == old(out).store,
            out.theorems == old(out).theorems,
            node_table_view(out.nodes@) == node_table_view(old(out).nodes@) + node_pairs_view(loc.nodes@).map_values(
                |t: (Seq<char>, NodeId)| (id.raw(), t.0, t.1),
            ),
            kind_table_view(out.relations@) == kind_table_view(old(out).relations@) + kind_pairs_view(
                loc.rels@,
            ).map_values(|t: (Seq<char>, EdgeKind)| (id.raw(), t.0, t.1)),
            name_table_view(out.axioms@) == name_table_view(old(out).axioms@) + str_views(
                loc.axioms@.take(i as int),
            ).map_values(|s: Seq<char>| (id.raw(), s)),
        decreases loc.axioms.len() - i,
    {
        let ghost before = out.axioms@;
        out.axioms.push((id, loc.axioms[i].clone()));
        proof {
            assert(loc.axioms@.take(i + 1) == loc.axioms@.take(i as int).push(loc.axioms@[i as int]));
            assert(name_table_view(out.axioms@) =~= name_table_view(before).push((id.raw(), loc.axioms@[i as int]@)));
            assert(name_table_view(out.axioms@) =~= name_table_view(old(out).axioms@) + str_views(
                loc.axioms@.take(i + 1),
            ).map_values(|s: Seq<char>| (id.raw(), s)));
        }
        i = i + 1;
    }
    proof {
        assert(loc.axioms@.take(i as int) == loc.axioms@);
    }
    i = 0;
    while i < loc.theorems.len()
        invariant
            i <= loc.theorems@.len(),
            out.store == old(out).store,
            node_table_view(out.nodes@) == node_table_view(old(out).nodes@) + node_pairs_view(loc.nodes@).map_values(
                |t: (Seq<char>, NodeId)| (id.raw(), t.0, t.1),
            ),
            kind_table_view(out.relations@) == kind_table_view(old(out).relations@) + kind_pairs_view(
                loc.rels@,
            ).map_values(|t: (Seq<char>, EdgeKind)| (id.raw(), t.0, t.1)),
            name_table_view(out.axioms@) == name_table_view(old(out).axioms@) + str_views(loc.axioms@).map_values(
                |s: Seq<char>| (id.raw(), s),
            ),
            name_table_view(out.theorems@) == name_table_view(old(out).theorems@) + str_views(
                loc.theorems@.take(i as int),
            ).map_values(|s: Seq<char>| (id.raw(), s)),
        decreases loc.theorems.len() - i,
    {
        let ghost before = out.theorems@;
        out.theorems.push((id, loc.theorems[i].clone()));
        proof {
            assert(loc.theorems@.take(i + 1) == loc.theorems@.take(i as int).push(loc.theorems@[i as int]));
            assert(name_table_view(out.theorems@) =~= name_table_view(before).push((id.raw(), loc.theorems@[i as int]@)));
            assert(name_table_view(out.theorems@) =~= name_table_view(old(out).theorems@) + str_views(
                loc.theorems@.take(i + 1),
            ).map_values(|s: Seq<char>| (id.raw(), s)));
        }
        i = i + 1;
    }
    proof {
        assert(loc.theorems@.take(i as int) == loc.theorems@);
    }
}

proof fn lemma_rows_prefix(kept: Seq<(IslandDecl, nat)>, k2: Seq<(IslandDecl, nat)>, b: int)
    requires
        0 <= b <= kept.len() <= k2.len(),
        forall|q: int| 0 <= q < kept.len() ==> k2[q] == kept[q],
    ensures
        node_rows(k2, b) == node_rows(kept, b),
        relation_rows(k2, b) == relation_rows(kept, b),
        axiom_rows(k2, b) == axiom_rows(kept, b),
        theorem_rows(k2, b) == theorem_rows(kept, b),
    decreases b,
{
    if b > 0 {
        lemma_rows_prefix(kept, k2, b - 1);
        assert(k2[b - 1] == kept[b - 1]);
    }
}

/// A handle found by name in a lowered store sits at its table position.
proof fn lemma_found_lowered(store: IslandStore, kept: Seq<(IslandDecl, nat)>, id: IslandId, name: Seq<char>)
    requires
        store_lowered(store, kept),
        store.find(id) matches Some(i) && i.name@ == name,
    ensures
        1 <= id.raw() <= kept.len(),
        store.table()[id.raw() - 1].0 == id,
        store.table()[id.raw() - 1].1.name@ == name,
        store.find(id) == Some(store.table()[id.raw() - 1].1),
        store.world_of(id).version == 1,
        world_named(store.table(), store.world_of(id), name),
{
    let t = store.table();
    let a = choose|k: int| 0 <= k < t.len() && (#[trigger] t[k]).0 == id;
    assert(island_lowered(t, a, kept[a].0, kept[a].1));
    store.lemma_find_at(a);
}

/// Lower a parsed module into an [`IslandStore`].
///
/// Islands are lowered in order (the holder `_` only contributes
/// connections); each `use` must name an island accepted before it. Then every
/// connection registers a pair of bidirectional skeletons. Fails with the first
/// error met in that order.
pub fn lower_module(module: &ModuleDecl) -> (r: Result<LoweringResult, MetisError>)
    ensures
        match lower_outcome(*module) {
            Err(e) => r == Err::<LoweringResult, MetisError>(e),
            Ok(kept) => r matches Ok(out) && result_lowered(
                out,
                kept,
                pending_prefix(module.islands@, module.islands@.len() as int),
            ),
        },
{
    let ghost isls = module.islands@;
    let mut out = LoweringResult::default();
    let mut next_custom: u16 = 1;
    let mut pending: Vec<(String, String)> = Vec::new();
    let holder = "_".to_owned();
    let ghost mut kept: Seq<(IslandDecl, nat)> = Seq::empty();
    let mut k: usize = 0;
    proof {
        assert(conn_pairs_view(pending@) =~= pending_prefix(isls, 0));
        assert(node_table_view(out.nodes@) =~= node_rows(kept, 0));
        assert(kind_table_view(out.relations@) =~= relation_rows(kept, 0));
        assert(name_table_view(out.axioms@) =~= axiom_rows(kept, 0));
        assert(name_table_view(out.theorems@) =~= theorem_rows(kept, 0));
    }
    while k < module.islands.len()
        invariant
            isls == module.islands@,
            k <= isls.len(),
            holder@ == "_"@,
            lower_prefix(isls, k as int) == Ok::<Seq<(IslandDecl, nat)>, MetisError>(kept),
            store_lowered(out.store, kept),
            out.store.spec_connections().len() == 0,
            next_custom as nat == next_rel(kept),
            conn_pairs_view(pending@) == pending_prefix(isls, k as int),
            node_table_view(out.nodes@) == node_rows(kept, kept.len() as int),
            kind_table_view(out.relations@) == relation_rows(kept, kept.len() as int),
            name_table_view(out.axioms@) == axiom_rows(kept, kept.len() as int),
            name_table_view(out.theorems@) == theorem_rows(kept, kept.len() as int),
        decreases isls.len() - k,
    {
        let d = &module.islands[k];
        if d.name == holder {
            collect_connections(&d.items, &mut pending);
            proof {
                assert(lower_prefix(isls, k + 1) == Ok::<Seq<(IslandDecl, nat)>, MetisError>(kept));
            }
        } else {
            match lower_island(&mut out.store, d, &mut next_custom, &mut pending, Ghost(kept)) {
                Err(e) => {
                    proof {
                        assert(lower_prefix(isls, k + 1) == Err::<Seq<(IslandDecl, nat)>, MetisError>(e));
                        lemma_prefix_err_stays(isls, k + 1, e);
                    }
                    return Err(e);
                },
                Ok((id, loc)) => {
                    let ghost k2 = kept.push((*d, next_rel(kept)));
                    let ghost items = d.items@;
                    let ghost n = items.len() as int;
                    let ghost a = k2.len() as int;
                    record_island(&mut out, id, loc);
                    proof {
                        assert(k2[a - 1] == (*d, next_rel(kept)));
                        assert(kept =~= k2.take(a - 1));
                        assert forall|b: int| 0 <= b <= a - 1 implies node_rows(k2, b) == node_rows(kept, b)
                            && relation_rows(k2, b) == relation_rows(kept, b) && axiom_rows(k2, b) == axiom_rows(
                            kept,
                            b,
                        ) && theorem_rows(k2, b) == theorem_rows(kept, b) by {
                            lemma_rows_prefix(kept, k2, b);
                        }
                        assert(node_table_view(out.nodes@) =~= node_rows(k2, a));
                        assert(kind_table_view(out.relations@) =~= relation_rows(k2, a));
                        assert(name_table_view(out.axioms@) =~= axiom_rows(k2, a));
                        assert(name_table_view(out.theorems@) =~= theorem_rows(k2, a));
                        kept = k2;
                    }
                },
            }
        }
        proof {
            assert(pending_prefix(isls, k + 1) == pending_prefix(isls, k as int) + conn_pairs(
                isls[k as int].items@,
                isls[k as int].items@.len() as int,
            ));
        }
        k = k + 1;
    }
    let ghost pend = pending_prefix(isls, isls.len() as int);
    let ghost names = kept_names(kept);
    let mut p: usize = 0;
    proof {
        assert(isls.len() == k);
    }
    while p < pending.len()
        invariant
            isls == module.islands@,
            p <= pending@.len(),
            conn_pairs_view(pending@) == pend,
            lower_prefix(isls, isls.len() as int) == Ok::<Seq<(IslandDecl, nat)>, MetisError>(kept),
            pend == pending_prefix(isls, isls.len() as int),
            names == kept_names(kept),
            conn_outcome(names, pend, p as int) == Ok::<(), MetisError>(()),
            store_lowered(out.store, kept),
            connections_lowered(out.store, pend, p as int),
            node_table_view(out.nodes@) == node_rows(kept, kept.len() as int),
            kind_table_view(out.relations@) == relation_rows(kept, kept.len() as int),
            name_table_view(out.axioms@) == axiom_rows(kept, kept.len() as int),
            name_table_view(out.theorems@) == theorem_rows(kept, kept.len() as int),
        decreases pending.len() - p,
    {
        let ghost pair = pend[p as int];
        proof {
            assert(conn_pairs_view(pending@)[p as int] == pair);
            lemma_names_lowered(out.store, kept, pair.0);
            lemma_names_lowered(out.store, kept, pair.1);
        }
        let lid = match out.store.lookup(pending[p].0.as_str()) {
            Some(x) => x,
            None => {
                proof {
                    lemma_conn_err_stays(names, pend, p + 1, MetisError::IslandNotFound);
                }
                return Err(MetisError::IslandNotFound);
            },
        };
        let rid = match out.store.lookup(pending[p].1.as_str()) {
            Some(x) => x,
            None => {
                proof {
                    lemma_conn_err_stays(names, pend, p + 1, MetisError::IslandNotFound);
                }
                return Err(MetisError::IslandNotFound);
            },
        };
        let ghost s0 = out.store;
        proof {
            lemma_found_lowered(s0, kept, lid, pair.0);
            lemma_found_lowered(s0, kept, rid, pair.1);
            if pair.0 == pair.1 {
                assert(lid == rid) by {
                    let (a, b) = ((lid.raw() - 1) as int, (rid.raw() - 1) as int);
                    if a < b {
                        assert(s0.table()[a].1.name@ != s0.table()[b].1.name@);
                    } else if b < a {
                        assert(s0.table()[b].1.name@ != s0.table()[a].1.name@);
                    }
                    IslandId::lemma_raw_injective(lid, rid);
                }
            } else {
                assert(lid != rid);
            }
        }
        match out.store.declare_bidirectional(lid, rid) {
            Ok(_) => {},
            Err(e) => {
                proof {
                    lemma_conn_err_stays(names, pend, p + 1, MetisError::ConnectionInvalid);
                }
                return Err(e);
            },
        }
        proof {
            let c = out.store.spec_connections();
            assert(out.store.table() == s0.table());
            assert(s0.world_of(lid).version == 1);
            assert(s0.world_of(rid).version == 1);
            assert forall|q: int| 0 <= q < p + 1 implies {
                let fwd = #[trigger] c[2 * q];
                let back = c[2 * q + 1];
                &&& fwd.class == ConnectionClass::BidirectionalSkeleton
                &&& back.class == ConnectionClass::BidirectionalSkeleton
                &&& world_named(out.store.table(), fwd.source, pend[q].0)
                &&& world_named(out.store.table(), fwd.target, pend[q].1)
                &&& back.source == fwd.target
                &&& back.target == fwd.source
            } by {
                if q < p {
                    assert(c[2 * q] == s0.spec_connections()[2 * q]);
                    assert(c[2 * q + 1] == s0.spec_connections()[2 * q + 1]);
                }
            }
        }
        p = p + 1;
    }
    Ok(out)
}

} // verus!
