use vstd::prelude::*;

verus! {

use crate::{BSExp, DecodeError, Expr};
use crate::vli::{lemma_vli_parse_bounds, lemma_vli_parse_prefix, lemma_vli_round_trip, vli_bytes, vli_len, vli_parse, VLI};

// The wire container, in order:
//   vli(atom count), vli(atom buffer length), atom buffer,
//   vli(root count), one vli(tagged reference) per root,
//   vli(node count), vli(node buffer length), node buffer.
// Atom buffer: per atom, vli(byte length) then the raw bytes, in index
// order. Node buffer: per node, vli(child count) then one vli(tagged
// reference) per child. A tagged reference is (index << 1) | tag with
// tag 0 for an atom index and tag 1 for a node index; a node's
// children may only reference nodes of strictly lower index, so the
// wire form is a DAG read bottom-up.

/// Tagged reference to an atom table entry.
pub open spec fn atom_ref(i: int) -> u64 {
    (2 * i) as u64
}

/// Tagged reference to a node table entry.
pub open spec fn node_ref(i: int) -> u64 {
    (2 * i + 1) as u64
}

/// May `r` stand as a root (or appear anywhere a fully built table is
/// in scope): an atom index below `n_atoms`, or a node index below
/// `n_nodes`.
pub open spec fn ref_ok(r: u64, n_atoms: int, n_nodes: int) -> bool {
    if r % 2 == 0 {
        ((r / 2) as int) < n_atoms
    } else {
        ((r / 2) as int) < n_nodes
    }
}

/// May `r` stand inside node `i`: node references must target a
/// strictly lower index, which forbids cycles and forward references.
pub open spec fn ref_ok_in_node(r: u64, n_atoms: int, i: int) -> bool {
    if r % 2 == 0 {
        ((r / 2) as int) < n_atoms
    } else {
        ((r / 2) as int) < i
    }
}

pub open spec fn node_wf(children: Seq<u64>, n_atoms: int, i: int) -> bool {
    forall|k: int| 0 <= k < children.len() ==> ref_ok_in_node(#[trigger] children[k], n_atoms, i)
}

/// Every node's children point below it: the tables form a DAG.
pub open spec fn tables_wf(atoms: Seq<Seq<u8>>, nodes: Seq<Seq<u64>>) -> bool {
    forall|i: int| 0 <= i < nodes.len() ==> node_wf(#[trigger] nodes[i], atoms.len() as int, i)
}

pub open spec fn roots_wf(roots: Seq<u64>, n_atoms: int, n_nodes: int) -> bool {
    forall|k: int| 0 <= k < roots.len() ==> ref_ok(#[trigger] roots[k], n_atoms, n_nodes)
}

/// The expression a reference stands for, built bottom-up over the
/// tables. Out-of-range or forward references (which well-formed
/// tables never hold) expand to harmless defaults so that the
/// function is total.
pub open spec fn expand_ref(atoms: Seq<Seq<u8>>, nodes: Seq<Seq<u64>>, r: u64) -> Expr
    decreases r % 2, r / 2,
{
    if r % 2 == 0 {
        if ((r / 2) as int) < atoms.len() {
            Expr::Atom(atoms[(r / 2) as int])
        } else {
            Expr::Atom(Seq::empty())
        }
    } else {
        let i = (r / 2) as int;
        if i < nodes.len() as int {
            let cs = nodes[i];
            Expr::List(
                Seq::new(
                    cs.len(),
                    |k: int|
                        if 0 <= k < cs.len() && (cs[k] % 2 == 0 || cs[k] / 2 < r / 2) {
                            expand_ref(atoms, nodes, cs[k])
                        } else {
                            Expr::Atom(Seq::empty())
                        },
                ),
            )
        } else {
            Expr::List(Seq::empty())
        }
    }
}

/// The expressions the whole root list stands for.
pub open spec fn expand_roots(atoms: Seq<Seq<u8>>, nodes: Seq<Seq<u64>>, roots: Seq<u64>) -> Seq<
    Expr,
> {
    Seq::new(roots.len(), |k: int| expand_ref(atoms, nodes, roots[k]))
}

/// Growing the tables on the right changes no expansion of a
/// reference that was already in range.
pub proof fn lemma_expand_extend(
    atoms1: Seq<Seq<u8>>,
    nodes1: Seq<Seq<u64>>,
    atoms2: Seq<Seq<u8>>,
    nodes2: Seq<Seq<u64>>,
    r: u64,
)
    requires
        atoms1.is_prefix_of(atoms2),
        nodes1.is_prefix_of(nodes2),
        tables_wf(atoms1, nodes1),
        ref_ok(r, atoms1.len() as int, nodes1.len() as int),
    ensures
        expand_ref(atoms2, nodes2, r) == expand_ref(atoms1, nodes1, r),
    decreases r % 2, r / 2,
{
    if r % 2 == 0 {
        assert(atoms2[(r / 2) as int] == atoms1[(r / 2) as int]);
    } else {
        let i = (r / 2) as int;
        let cs = nodes1[i];
        assert(nodes2[i] == cs);
        assert(node_wf(cs, atoms1.len() as int, i));
        let e1 = expand_ref(atoms1, nodes1, r);
        let e2 = expand_ref(atoms2, nodes2, r);
        assert(e1->List_0.len() == cs.len() && e2->List_0.len() == cs.len());
        assert forall|k: int| 0 <= k < cs.len() implies e1->List_0[k] == #[trigger] e2->List_0[k] by {
            assert(ref_ok_in_node(cs[k], atoms1.len() as int, i));
            if cs[k] % 2 == 0 || cs[k] / 2 < r / 2 {
                assert(ref_ok(cs[k], atoms1.len() as int, nodes1.len() as int));
                lemma_expand_extend(atoms1, nodes1, atoms2, nodes2, cs[k]);
            }
        }
        assert(e1->List_0 =~= e2->List_0);
        assert(e1 == Expr::List(e1->List_0) && e2 == Expr::List(e2->List_0));
    }
}

/// Encoder state: the two content-addressed tables, grown in
/// first-seen order.
pub struct EncTables {
    pub atoms: Seq<Seq<u8>>,
    pub nodes: Seq<Seq<u64>>,
}

/// Index of the first entry equal to `x`, if any.
pub open spec fn find_entry<T>(s: Seq<T>, x: T) -> Option<int>
    decreases s.len(),
{
    if s.len() == 0 {
        None
    } else if s[0] == x {
        Some(0)
    } else {
        match find_entry(s.skip(1), x) {
            Some(j) => Some(j + 1),
            None => None,
        }
    }
}

pub proof fn lemma_find_entry<T>(s: Seq<T>, x: T)
    ensures
        match find_entry(s, x) {
            Some(j) => 0 <= j < s.len() && s[j] == x && (forall|l: int| 0 <= l < j ==> s[l] != x),
            None => forall|l: int| 0 <= l < s.len() ==> s[l] != x,
        },
    decreases s.len(),
{
    if s.len() != 0 && s[0] != x {
        lemma_find_entry(s.skip(1), x);
        assert(forall|l: int| 0 <= l < s.skip(1).len() ==> #[trigger] s.skip(1)[l] == s[l + 1]);
        match find_entry(s.skip(1), x) {
            Some(j) => {
                assert(s[j + 1] == s.skip(1)[j]);
                assert forall|l: int| 0 <= l < j + 1 implies s[l] != x by {
                    if l > 0 {
                        assert(s.skip(1)[l - 1] != x);
                    }
                }
            },
            None => {
                assert forall|l: int| 0 <= l < s.len() implies s[l] != x by {
                    if l > 0 {
                        assert(s.skip(1)[l - 1] != x);
                    }
                }
            },
        }
    }
}

/// Where the first match is, given a witness and that nothing earlier
/// matches.
pub proof fn lemma_find_entry_is<T>(s: Seq<T>, x: T, j: int)
    requires
        0 <= j < s.len(),
        s[j] == x,
        forall|l: int| 0 <= l < j ==> s[l] != x,
    ensures
        find_entry(s, x) == Some(j),
{
    lemma_find_entry(s, x);
    match find_entry(s, x) {
        Some(j2) => {
            if j2 < j {
                assert(s[j2] != x);
            } else if j < j2 {
                assert(s[j] != x);
            }
        },
        None => {
            assert(s[j] != x);
        },
    }
}

/// For flat element types the deep view is the view.
pub proof fn lemma_bytes_deep_view(v: Vec<u8>)
    ensures
        v.deep_view() == v@,
{
    assert(v.deep_view() =~= v@);
}

pub proof fn lemma_refs_deep_view(v: Vec<u64>)
    ensures
        v.deep_view() == v@,
{
    assert(v.deep_view() =~= v@);
}

/// A prefix of a prefix is a prefix.
pub proof fn lemma_prefix_trans<T>(a: Seq<T>, b: Seq<T>, c: Seq<T>)
    requires
        a.is_prefix_of(b),
        b.is_prefix_of(c),
    ensures
        a.is_prefix_of(c),
{
    assert(a =~= c.take(a.len() as int));
}

/// Intern a byte string: the existing index on an exact match, else
/// the next free index, with the table grown by one entry.
pub open spec fn spec_intern_atom(atoms: Seq<Seq<u8>>, b: Seq<u8>) -> (Seq<Seq<u8>>, u64) {
    match find_entry(atoms, b) {
        Some(j) => (atoms, atom_ref(j)),
        None => (atoms.push(b), atom_ref(atoms.len() as int)),
    }
}

/// Intern a child-reference sequence, sharing structurally identical
/// nodes.
pub open spec fn spec_intern_node(nodes: Seq<Seq<u64>>, cs: Seq<u64>) -> (Seq<Seq<u64>>, u64) {
    match find_entry(nodes, cs) {
        Some(j) => (nodes, node_ref(j)),
        None => (nodes.push(cs), node_ref(nodes.len() as int)),
    }
}

/// Number of expressions in `e`, counting each atom's bytes as well:
/// an upper bound on how much either table can grow while `e` is
/// encoded, and on the child count of any node created for it.
pub open spec fn expr_size(e: Expr) -> nat
    decreases e, 0int,
{
    match e {
        Expr::Atom(b) => 1 + b.len(),
        Expr::List(cs) => 1 + cs.len() + exprs_size(cs, 0),
    }
}

pub open spec fn exprs_size(es: Seq<Expr>, i: int) -> nat
    decreases es, es.len() - i,
{
    if i < 0 || i >= es.len() {
        0
    } else {
        expr_size(es[i]) + exprs_size(es, i + 1)
    }
}

/// Resolve one expression against the tables, post-order: a list's
/// children first, then the list itself.
pub open spec fn spec_encode_expr(t: EncTables, e: Expr) -> (EncTables, u64)
    decreases e, 0int,
{
    match e {
        Expr::Atom(b) => {
            let (atoms, r) = spec_intern_atom(t.atoms, b);
            (EncTables { atoms, nodes: t.nodes }, r)
        },
        Expr::List(cs) => {
            let (t1, refs) = spec_encode_items(t, cs, 0);
            let (nodes, r) = spec_intern_node(t1.nodes, refs);
            (EncTables { atoms: t1.atoms, nodes }, r)
        },
    }
}

/// Resolve `es[i..]` left to right, collecting one reference each.
pub open spec fn spec_encode_items(t: EncTables, es: Seq<Expr>, i: int) -> (EncTables, Seq<u64>)
    decreases es, es.len() - i,
{
    if i < 0 || i >= es.len() {
        (t, Seq::empty())
    } else {
        let (t1, r) = spec_encode_expr(t, es[i]);
        let (t2, rs) = spec_encode_items(t1, es, i + 1);
        (t2, seq![r] + rs)
    }
}

pub open spec fn empty_tables() -> EncTables {
    EncTables { atoms: Seq::empty(), nodes: Seq::empty() }
}

/// The tables and root references the encoder builds for `es`.
pub open spec fn spec_encode_tables(es: Seq<Expr>) -> (EncTables, Seq<u64>) {
    spec_encode_items(empty_tables(), es, 0)
}

/// No two entries hold the same content.
pub open spec fn entries_distinct<T>(s: Seq<T>) -> bool {
    forall|i: int, j: int| 0 <= i < j < s.len() ==> #[trigger] s[i] != #[trigger] s[j]
}

/// Combined weight of the table entries: entry count plus per-entry
/// content length, which bounds every serialized buffer.
pub open spec fn atoms_weight(atoms: Seq<Seq<u8>>, i: int) -> nat
    decreases atoms.len() - i,
{
    if i < 0 || i >= atoms.len() {
        0
    } else {
        1 + atoms[i].len() + atoms_weight(atoms, i + 1)
    }
}

pub open spec fn nodes_weight(nodes: Seq<Seq<u64>>, i: int) -> nat
    decreases nodes.len() - i,
{
    if i < 0 || i >= nodes.len() {
        0
    } else {
        1 + nodes[i].len() + nodes_weight(nodes, i + 1)
    }
}

pub open spec fn tables_weight(t: EncTables) -> nat {
    atoms_weight(t.atoms, 0) + nodes_weight(t.nodes, 0)
}

proof fn lemma_atoms_weight_push(atoms: Seq<Seq<u8>>, b: Seq<u8>, i: int)
    requires
        0 <= i <= atoms.len(),
    ensures
        atoms_weight(atoms.push(b), i) == atoms_weight(atoms, i) + 1 + b.len(),
    decreases atoms.len() - i,
{
    if i < atoms.len() {
        assert(atoms.push(b)[i] == atoms[i]);
        lemma_atoms_weight_push(atoms, b, i + 1);
    } else {
        assert(atoms.push(b)[i] == b);
        assert(atoms_weight(atoms.push(b), i + 1) == 0);
        assert(atoms_weight(atoms, i) == 0);
    }
}

proof fn lemma_nodes_weight_push(nodes: Seq<Seq<u64>>, cs: Seq<u64>, i: int)
    requires
        0 <= i <= nodes.len(),
    ensures
        nodes_weight(nodes.push(cs), i) == nodes_weight(nodes, i) + 1 + cs.len(),
    decreases nodes.len() - i,
{
    if i < nodes.len() {
        assert(nodes.push(cs)[i] == nodes[i]);
        lemma_nodes_weight_push(nodes, cs, i + 1);
    } else {
        assert(nodes.push(cs)[i] == cs);
        assert(nodes_weight(nodes.push(cs), i + 1) == 0);
        assert(nodes_weight(nodes, i) == 0);
    }
}

proof fn lemma_atoms_weight_ge_len(atoms: Seq<Seq<u8>>, i: int)
    requires
        0 <= i <= atoms.len(),
    ensures
        atoms_weight(atoms, i) >= atoms.len() - i,
    decreases atoms.len() - i,
{
    if i < atoms.len() {
        lemma_atoms_weight_ge_len(atoms, i + 1);
    }
}

proof fn lemma_nodes_weight_ge_len(nodes: Seq<Seq<u64>>, i: int)
    requires
        0 <= i <= nodes.len(),
    ensures
        nodes_weight(nodes, i) >= nodes.len() - i,
    decreases nodes.len() - i,
{
    if i < nodes.len() {
        lemma_nodes_weight_ge_len(nodes, i + 1);
    }
}

/// Upper bound on the combined table weight the encoder is proved
/// for. It keeps every table index, count and buffer length far below
/// what a tagged reference or a length field can carry; no input a
/// machine can hold comes near it.
pub const POOL_LIMIT: u64 = 0x0800_0000_0000_0000;

/// What one encoding step guarantees: the tables only grow on the
/// right, stay well-formed and duplicate-free, their weight grows at
/// most by the expression's size, and the returned reference expands
/// to exactly the encoded expression.
pub proof fn lemma_encode_expr(t: EncTables, e: Expr)
    requires
        tables_wf(t.atoms, t.nodes),
        entries_distinct(t.atoms),
        entries_distinct(t.nodes),
        tables_weight(t) + expr_size(e) <= POOL_LIMIT,
    ensures
        ({
            let (t2, r) = spec_encode_expr(t, e);
            tables_wf(t2.atoms, t2.nodes) && entries_distinct(t2.atoms) && entries_distinct(
                t2.nodes,
            ) && t.atoms.is_prefix_of(t2.atoms) && t.nodes.is_prefix_of(t2.nodes) && ref_ok(
                r,
                t2.atoms.len() as int,
                t2.nodes.len() as int,
            ) && tables_weight(t2) <= tables_weight(t) + expr_size(e) && expand_ref(
                t2.atoms,
                t2.nodes,
                r,
            ) == e
        }),
    decreases e, 1int,
{
    let (t2, r) = spec_encode_expr(t, e);
    lemma_atoms_weight_ge_len(t.atoms, 0);
    lemma_nodes_weight_ge_len(t.nodes, 0);
    match e {
        Expr::Atom(b) => {
            lemma_find_entry(t.atoms, b);
            match find_entry(t.atoms, b) {
                Some(j) => {
                    assert(atom_ref(j) % 2 == 0 && atom_ref(j) / 2 == j);
                },
                None => {
                    let j = t.atoms.len() as int;
                    assert(atom_ref(j) % 2 == 0 && atom_ref(j) / 2 == j);
                    lemma_atoms_weight_push(t.atoms, b, 0);
                    assert(tables_wf(t2.atoms, t2.nodes)) by {
                        assert(forall|i: int|
                            0 <= i < t2.nodes.len() ==> node_wf(
                                #[trigger] t2.nodes[i],
                                t.atoms.len() as int,
                                i,
                            ));
                        assert forall|i: int, k: int|
                            0 <= i < t2.nodes.len() && 0 <= k < t2.nodes[i].len() implies ref_ok_in_node(
                            #[trigger] t2.nodes[i][k],
                            t2.atoms.len() as int,
                            i,
                        ) by {
                            assert(ref_ok_in_node(t2.nodes[i][k], t.atoms.len() as int, i));
                        }
                    }
                    assert(entries_distinct(t2.atoms)) by {
                        assert(forall|l: int| 0 <= l < t.atoms.len() ==> t.atoms[l] != b);
                        assert(forall|l: int|
                            0 <= l < t.atoms.len() ==> #[trigger] t2.atoms[l] == t.atoms[l]);
                        assert(t2.atoms[j] == b);
                    }
                },
            }
        },
        Expr::List(cs) => {
            lemma_encode_items(t, cs, 0);
            let (t1, refs) = spec_encode_items(t, cs, 0);
            lemma_find_entry(t1.nodes, refs);
            lemma_atoms_weight_ge_len(t1.atoms, 0);
            lemma_nodes_weight_ge_len(t1.nodes, 0);
            let i_new = t1.nodes.len() as int;
            match find_entry(t1.nodes, refs) {
                Some(j) => {
                    assert(node_ref(j) % 2 == 1 && node_ref(j) / 2 == j);
                    assert(expand_ref(t1.atoms, t1.nodes, node_ref(j)) == e) by {
                        lemma_expand_node(t1.atoms, t1.nodes, j, cs, refs);
                    }
                },
                None => {
                    let nodes2 = t1.nodes.push(refs);
                    assert(node_ref(i_new) % 2 == 1 && node_ref(i_new) / 2 == i_new);
                    lemma_nodes_weight_push(t1.nodes, refs, 0);
                    assert(node_wf(refs, t1.atoms.len() as int, i_new)) by {
                        assert forall|k: int| 0 <= k < refs.len() implies ref_ok_in_node(
                            #[trigger] refs[k],
                            t1.atoms.len() as int,
                            i_new,
                        ) by {
                            assert(ref_ok(refs[k], t1.atoms.len() as int, t1.nodes.len() as int));
                        }
                    }
                    assert(tables_wf(t2.atoms, t2.nodes)) by {
                        assert forall|i: int| 0 <= i < nodes2.len() implies node_wf(
                            #[trigger] nodes2[i],
                            t1.atoms.len() as int,
                            i,
                        ) by {
                            if i < t1.nodes.len() {
                                assert(nodes2[i] == t1.nodes[i]);
                            } else {
                                assert(nodes2[i] == refs);
                            }
                        }
                    }
                    assert(entries_distinct(t2.nodes)) by {
                        assert(forall|l: int| 0 <= l < t1.nodes.len() ==> t1.nodes[l] != refs);
                        assert(forall|l: int|
                            0 <= l < t1.nodes.len() ==> #[trigger] nodes2[l] == t1.nodes[l]);
                        assert(nodes2[i_new] == refs);
                    }
                    assert(expand_ref(t2.atoms, t2.nodes, node_ref(i_new)) == e) by {
                        assert forall|k: int| 0 <= k < refs.len() implies expand_ref(
                            t2.atoms,
                            t2.nodes,
                            #[trigger] refs[k],
                        ) == cs[k] by {
                            lemma_expand_extend(t1.atoms, t1.nodes, t2.atoms, t2.nodes, refs[k]);
                        }
                        lemma_expand_node(t2.atoms, t2.nodes, i_new, cs, refs);
                    }
                },
            }
        },
    }
}

/// Expanding a node whose children each expand to the matching
/// element of `cs` yields `Expr::List(cs)`.
proof fn lemma_expand_node(atoms: Seq<Seq<u8>>, nodes: Seq<Seq<u64>>, j: int, cs: Seq<Expr>, refs: Seq<u64>)
    requires
        0 <= j < nodes.len(),
        j < 0x8000_0000_0000_0000,
        nodes[j] == refs,
        tables_wf(atoms, nodes),
        refs.len() == cs.len(),
        forall|k: int| 0 <= k < refs.len() ==> expand_ref(atoms, nodes, #[trigger] refs[k]) == cs[k],
    ensures
        expand_ref(atoms, nodes, node_ref(j)) == Expr::List(cs),
{
    let r = node_ref(j);
    assert(r % 2 == 1 && r / 2 == j);
    let e = expand_ref(atoms, nodes, r);
    assert(e->List_0.len() == refs.len());
    assert forall|k: int| 0 <= k < refs.len() implies #[trigger] e->List_0[k] == cs[k] by {
        assert(node_wf(refs, atoms.len() as int, j));
        assert(ref_ok_in_node(refs[k], atoms.len() as int, j));
    }
    assert(e->List_0 =~= cs);
    assert(e == Expr::List(e->List_0));
}

/// `lemma_encode_expr`, lifted over a slice of expressions.
pub proof fn lemma_encode_items(t: EncTables, es: Seq<Expr>, i: int)
    requires
        tables_wf(t.atoms, t.nodes),
        entries_distinct(t.atoms),
        entries_distinct(t.nodes),
        tables_weight(t) + exprs_size(es, i) <= POOL_LIMIT,
        0 <= i <= es.len(),
    ensures
        ({
            let (t2, rs) = spec_encode_items(t, es, i);
            tables_wf(t2.atoms, t2.nodes) && entries_distinct(t2.atoms) && entries_distinct(
                t2.nodes,
            ) && t.atoms.is_prefix_of(t2.atoms) && t.nodes.is_prefix_of(t2.nodes) && rs.len()
                == es.len() - i && tables_weight(t2) <= tables_weight(t) + exprs_size(es, i) && (
            forall|k: int|
                0 <= k < rs.len() ==> ref_ok(
                    #[trigger] rs[k],
                    t2.atoms.len() as int,
                    t2.nodes.len() as int,
                ) && expand_ref(t2.atoms, t2.nodes, rs[k]) == es[i + k])
        }),
    decreases es, es.len() - i,
{
    if i < es.len() {
        lemma_encode_expr(t, es[i]);
        let (t1, r) = spec_encode_expr(t, es[i]);
        lemma_encode_items(t1, es, i + 1);
        let (t2, rs) = spec_encode_items(t1, es, i + 1);
        lemma_prefix_trans(t.atoms, t1.atoms, t2.atoms);
        lemma_prefix_trans(t.nodes, t1.nodes, t2.nodes);
        let all = seq![r] + rs;
        assert forall|k: int| 0 <= k < all.len() implies ref_ok(
            #[trigger] all[k],
            t2.atoms.len() as int,
            t2.nodes.len() as int,
        ) && expand_ref(t2.atoms, t2.nodes, all[k]) == es[i + k] by {
            if k == 0 {
                assert(all[0] == r);
                lemma_expand_extend(t1.atoms, t1.nodes, t2.atoms, t2.nodes, r);
            } else {
                assert(all[k] == rs[k - 1]);
            }
        }
    }
}

/// Wire form of one atom table entry: its length, then its bytes.
pub open spec fn atom_entry_bytes(a: Seq<u8>) -> Seq<u8> {
    vli_bytes(a.len() as u64) + a
}

/// Wire form of the atom buffer from entry `i` on.
pub open spec fn atoms_bytes(atoms: Seq<Seq<u8>>, i: int) -> Seq<u8>
    decreases atoms.len() - i,
{
    if i < 0 || i >= atoms.len() {
        Seq::empty()
    } else {
        atom_entry_bytes(atoms[i]) + atoms_bytes(atoms, i + 1)
    }
}

/// Wire form of a run of references from index `i` on.
pub open spec fn refs_bytes(rs: Seq<u64>, i: int) -> Seq<u8>
    decreases rs.len() - i,
{
    if i < 0 || i >= rs.len() {
        Seq::empty()
    } else {
        vli_bytes(rs[i]) + refs_bytes(rs, i + 1)
    }
}

/// Wire form of one node table entry: its child count, then one
/// reference per child.
pub open spec fn node_entry_bytes(cs: Seq<u64>) -> Seq<u8> {
    vli_bytes(cs.len() as u64) + refs_bytes(cs, 0)
}

/// Wire form of the node buffer from entry `i` on.
pub open spec fn nodes_bytes(nodes: Seq<Seq<u64>>, i: int) -> Seq<u8>
    decreases nodes.len() - i,
{
    if i < 0 || i >= nodes.len() {
        Seq::empty()
    } else {
        node_entry_bytes(nodes[i]) + nodes_bytes(nodes, i + 1)
    }
}

/// Wire form of the atom section: count, buffer length, buffer.
pub open spec fn atom_section_bytes(atoms: Seq<Seq<u8>>) -> Seq<u8> {
    vli_bytes(atoms.len() as u64) + (vli_bytes(atoms_bytes(atoms, 0).len() as u64) + atoms_bytes(
        atoms,
        0,
    ))
}

/// Wire form of the root section: count, then the references.
pub open spec fn root_section_bytes(roots: Seq<u64>) -> Seq<u8> {
    vli_bytes(roots.len() as u64) + refs_bytes(roots, 0)
}

/// Wire form of the node section: count, buffer length, buffer.
pub open spec fn node_section_bytes(nodes: Seq<Seq<u64>>) -> Seq<u8> {
    vli_bytes(nodes.len() as u64) + (vli_bytes(nodes_bytes(nodes, 0).len() as u64) + nodes_bytes(
        nodes,
        0,
    ))
}

/// The whole container.
pub open spec fn container_bytes(atoms: Seq<Seq<u8>>, roots: Seq<u64>, nodes: Seq<Seq<u64>>) -> Seq<
    u8,
> {
    atom_section_bytes(atoms) + (root_section_bytes(roots) + node_section_bytes(nodes))
}

/// The bytes the encoder produces for `es`: fully determined by the
/// input, so equal inputs encode byte-identically.
pub open spec fn encode_bytes(es: Seq<Expr>) -> Seq<u8> {
    let (t, roots) = spec_encode_tables(es);
    container_bytes(t.atoms, roots, t.nodes)
}

fn bytes_eq(a: &Vec<u8>, b: &Vec<u8>) -> (r: bool)
    ensures
        r == (a@ == b@),
{
    if a.len() != b.len() {
        proof {
            assert(a@ != b@);
        }
        return false;
    }
    let mut k: usize = 0;
    while k < a.len()
        invariant
            k <= a.len(),
            a@.len() == b@.len(),
            forall|l: int| 0 <= l < k ==> a@[l] == b@[l],
        decreases a@.len() - k,
    {
        if a[k] != b[k] {
            return false;
        }
        k = k + 1;
    }
    proof {
        assert(a@ =~= b@);
    }
    true
}

fn refs_eq(a: &Vec<u64>, b: &Vec<u64>) -> (r: bool)
    ensures
        r == (a@ == b@),
{
    if a.len() != b.len() {
        proof {
            assert(a@ != b@);
        }
        return false;
    }
    let mut k: usize = 0;
    while k < a.len()
        invariant
            k <= a.len(),
            a@.len() == b@.len(),
            forall|l: int| 0 <= l < k ==> a@[l] == b@[l],
        decreases a@.len() - k,
    {
        if a[k] != b[k] {
            return false;
        }
        k = k + 1;
    }
    proof {
        assert(a@ =~= b@);
    }
    true
}

fn intern_atom(atoms: &mut Vec<Vec<u8>>, b: &Vec<u8>) -> (r: u64)
    requires
        old(atoms)@.len() < 0x8000_0000_0000_0000,
    ensures
        (final(atoms).deep_view(), r) == spec_intern_atom(old(atoms).deep_view(), b@),
{
    proof {
        lemma_find_entry(old(atoms).deep_view(), b@);
    }
    let ghost orig = atoms.deep_view();
    let mut j: usize = 0;
    while j < atoms.len()
        invariant
            atoms.deep_view() == orig,
            old(atoms)@.len() < 0x8000_0000_0000_0000,
            atoms@.len() == orig.len(),
            j <= atoms@.len(),
            forall|l: int| 0 <= l < j ==> orig[l] != b@,
        decreases atoms@.len() - j,
    {
        if bytes_eq(&atoms[j], b) {
            proof {
                lemma_bytes_deep_view(atoms@[j as int]);
                lemma_find_entry_is(orig, b@, j as int);
            }
            return 2 * (j as u64);
        }
        proof {
            lemma_bytes_deep_view(atoms@[j as int]);
        }
        j = j + 1;
    }
    proof {
        assert(find_entry(orig, b@) is None);
    }
    let r = 2 * (atoms.len() as u64);
    atoms.push(b.clone());
    proof {
        assert(atoms@[orig.len() as int]@ =~= b@);
        assert forall|l: int| 0 <= l <= orig.len() implies atoms.deep_view()[l] == orig.push(b@)[l] by {
            lemma_bytes_deep_view(atoms@[l]);
        }
        assert(atoms.deep_view() =~= orig.push(b@));
    }
    r
}

fn intern_node(nodes: &mut Vec<Vec<u64>>, cs: &Vec<u64>) -> (r: u64)
    requires
        old(nodes)@.len() < 0x8000_0000_0000_0000,
    ensures
        (final(nodes).deep_view(), r) == spec_intern_node(old(nodes).deep_view(), cs@),
{
    proof {
        lemma_find_entry(old(nodes).deep_view(), cs@);
    }
    let ghost orig = nodes.deep_view();
    let mut j: usize = 0;
    while j < nodes.len()
        invariant
            nodes.deep_view() == orig,
            old(nodes)@.len() < 0x8000_0000_0000_0000,
            nodes@.len() == orig.len(),
            j <= nodes@.len(),
            forall|l: int| 0 <= l < j ==> orig[l] != cs@,
        decreases nodes@.len() - j,
    {
        if refs_eq(&nodes[j], cs) {
            proof {
                lemma_refs_deep_view(nodes@[j as int]);
                lemma_find_entry_is(orig, cs@, j as int);
            }
            return 2 * (j as u64) + 1;
        }
        proof {
            lemma_refs_deep_view(nodes@[j as int]);
        }
        j = j + 1;
    }
    proof {
        assert(find_entry(orig, cs@) is None);
    }
    let r = 2 * (nodes.len() as u64) + 1;
    nodes.push(cs.clone());
    proof {
        assert(nodes@[orig.len() as int]@ =~= cs@);
        assert forall|l: int| 0 <= l <= orig.len() implies nodes.deep_view()[l] == orig.push(cs@)[l] by {
            lemma_refs_deep_view(nodes@[l]);
        }
        assert(nodes.deep_view() =~= orig.push(cs@));
    }
    r
}

/// Each element's size is bounded by the size of the whole slice.
pub proof fn lemma_exprs_size_elem(cs: Seq<Expr>, i: int, k: int)
    requires
        0 <= i <= k < cs.len(),
    ensures
        expr_size(cs[k]) <= exprs_size(cs, i),
    decreases k - i,
{
    if i < k {
        lemma_exprs_size_elem(cs, i + 1, k);
    }
}

/// Resolve one expression into the tables, post-order, and return its
/// reference: exactly what `spec_encode_expr` says.
fn encode_expr(e: &BSExp, atoms: &mut Vec<Vec<u8>>, nodes: &mut Vec<Vec<u64>>) -> (r: u64)
    requires
        tables_wf(old(atoms).deep_view(), old(nodes).deep_view()),
        entries_distinct(old(atoms).deep_view()),
        entries_distinct(old(nodes).deep_view()),
        tables_weight(
            EncTables { atoms: old(atoms).deep_view(), nodes: old(nodes).deep_view() },
        ) + expr_size(e@) <= POOL_LIMIT,
    ensures
        ({
            let (t2, r2) = spec_encode_expr(
                EncTables { atoms: old(atoms).deep_view(), nodes: old(nodes).deep_view() },
                e@,
            );
            final(atoms).deep_view() == t2.atoms && final(nodes).deep_view() == t2.nodes && r == r2
        }),
    decreases expr_size(e@),
{
    let ghost t0 = EncTables { atoms: atoms.deep_view(), nodes: nodes.deep_view() };
    proof {
        lemma_encode_expr(t0, e@);
        lemma_atoms_weight_ge_len(t0.atoms, 0);
        lemma_nodes_weight_ge_len(t0.nodes, 0);
    }
    match e {
        BSExp::Atom(bytes) => intern_atom(atoms, bytes),
        BSExp::List(items) => {
            let ghost cs = e@->List_0;
            proof {
                assert(cs.len() == items@.len());
                assert(forall|k: int| 0 <= k < cs.len() ==> cs[k] == #[trigger] items@[k]@);
                assert(e@ == Expr::List(cs));
                assert(Seq::<u64>::empty() + spec_encode_items(t0, cs, 0).1 =~= spec_encode_items(
                    t0,
                    cs,
                    0,
                ).1);
            }
            let mut refs: Vec<u64> = Vec::new();
            let mut k: usize = 0;
            while k < items.len()
                invariant
                    k <= items@.len(),
                    refs@.len() == k,
                    cs.len() == items@.len(),
                    forall|l: int| 0 <= l < cs.len() ==> cs[l] == #[trigger] items@[l]@,
                    e@ == Expr::List(cs),
                    tables_wf(atoms.deep_view(), nodes.deep_view()),
                    entries_distinct(atoms.deep_view()),
                    entries_distinct(nodes.deep_view()),
                    tables_weight(
                        EncTables { atoms: atoms.deep_view(), nodes: nodes.deep_view() },
                    ) + exprs_size(cs, k as int) + 1 + cs.len() <= POOL_LIMIT,
                    spec_encode_items(t0, cs, 0).0 == spec_encode_items(
                        EncTables { atoms: atoms.deep_view(), nodes: nodes.deep_view() },
                        cs,
                        k as int,
                    ).0,
                    spec_encode_items(t0, cs, 0).1 == refs@ + spec_encode_items(
                        EncTables { atoms: atoms.deep_view(), nodes: nodes.deep_view() },
                        cs,
                        k as int,
                    ).1,
                decreases items@.len() - k,
            {
                let ghost tk = EncTables { atoms: atoms.deep_view(), nodes: nodes.deep_view() };
                proof {
                    assert(exprs_size(cs, k as int) == expr_size(cs[k as int]) + exprs_size(
                        cs,
                        k as int + 1,
                    ));
                    lemma_encode_expr(tk, cs[k as int]);
                }
                proof {
                    lemma_exprs_size_elem(cs, 0, k as int);
                }
                let r = encode_expr(&items[k], atoms, nodes);
                proof {
                    let tk1 = EncTables { atoms: atoms.deep_view(), nodes: nodes.deep_view() };
                    let rsk1 = spec_encode_items(tk1, cs, k as int + 1).1;
                    assert(spec_encode_items(tk, cs, k as int).1 == seq![r] + rsk1);
                    assert(refs@.push(r) + rsk1 =~= refs@ + (seq![r] + rsk1));
                }
                refs.push(r);
                k = k + 1;
            }
            let ghost t1 = EncTables { atoms: atoms.deep_view(), nodes: nodes.deep_view() };
            proof {
                lemma_nodes_weight_ge_len(t1.nodes, 0);
                assert(spec_encode_items(t1, cs, cs.len() as int) == (t1, Seq::<u64>::empty()));
                assert(refs@ + Seq::<u64>::empty() =~= refs@);
                assert(spec_encode_items(t0, cs, 0) == (t1, refs@));
            }
            intern_node(nodes, &refs)
        },
    }
}

fn write_vli(out: &mut Vec<u8>, v: u64)
    ensures
        final(out)@ == old(out)@ + vli_bytes(v),
{
    let (arr, l) = v.to_vli_bytes();
    let mut k: usize = 0;
    while k < l
        invariant
            k <= l,
            1 <= l <= 9,
            arr@.take(l as int) == vli_bytes(v),
            out@ == old(out)@ + arr@.take(k as int),
        decreases l - k,
    {
        out.push(arr[k]);
        proof {
            assert(old(out)@ + arr@.take(k + 1 as int) =~= (old(out)@ + arr@.take(k as int)).push(
                arr@[k as int],
            ));
        }
        k = k + 1;
    }
}

fn write_bytes(out: &mut Vec<u8>, b: &Vec<u8>)
    ensures
        final(out)@ == old(out)@ + b@,
{
    let mut k: usize = 0;
    while k < b.len()
        invariant
            k <= b@.len(),
            out@ == old(out)@ + b@.take(k as int),
        decreases b@.len() - k,
    {
        out.push(b[k]);
        proof {
            assert(old(out)@ + b@.take(k + 1 as int) =~= (old(out)@ + b@.take(k as int)).push(
                b@[k as int],
            ));
        }
        k = k + 1;
    }
    proof {
        assert(b@.take(b@.len() as int) =~= b@);
    }
}

fn write_atoms(out: &mut Vec<u8>, atoms: &Vec<Vec<u8>>)
    ensures
        final(out)@ == old(out)@ + atoms_bytes(atoms.deep_view(), 0),
{
    let ghost dv = atoms.deep_view();
    let mut i: usize = 0;
    while i < atoms.len()
        invariant
            i <= atoms@.len(),
            dv == atoms.deep_view(),
            dv.len() == atoms@.len(),
            old(out)@ + atoms_bytes(dv, 0) == out@ + atoms_bytes(dv, i as int),
        decreases atoms@.len() - i,
    {
        let ghost before = out@;
        proof {
            lemma_bytes_deep_view(atoms@[i as int]);
            assert(dv[i as int] == atoms@[i as int]@);
        }
        write_vli(out, atoms[i].len() as u64);
        write_bytes(out, &atoms[i]);
        proof {
            assert(out@ =~= before + atom_entry_bytes(dv[i as int]));
            assert(atoms_bytes(dv, i as int) == atom_entry_bytes(dv[i as int]) + atoms_bytes(
                dv,
                i as int + 1,
            ));
            assert(before + (atom_entry_bytes(dv[i as int]) + atoms_bytes(dv, i as int + 1)) =~= (
            before + atom_entry_bytes(dv[i as int])) + atoms_bytes(dv, i as int + 1));
        }
        i = i + 1;
    }
    proof {
        assert(atoms_bytes(dv, dv.len() as int) =~= Seq::<u8>::empty());
        assert(out@ + Seq::<u8>::empty() =~= out@);
    }
}

fn write_refs(out: &mut Vec<u8>, rs: &Vec<u64>)
    ensures
        final(out)@ == old(out)@ + refs_bytes(rs@, 0),
{
    let mut i: usize = 0;
    while i < rs.len()
        invariant
            i <= rs@.len(),
            old(out)@ + refs_bytes(rs@, 0) == out@ + refs_bytes(rs@, i as int),
        decreases rs@.len() - i,
    {
        let ghost before = out@;
        write_vli(out, rs[i]);
        proof {
            assert(refs_bytes(rs@, i as int) == vli_bytes(rs@[i as int]) + refs_bytes(
                rs@,
                i as int + 1,
            ));
            assert(before + (vli_bytes(rs@[i as int]) + refs_bytes(rs@, i as int + 1)) =~= (before
                + vli_bytes(rs@[i as int])) + refs_bytes(rs@, i as int + 1));
        }
        i = i + 1;
    }
    proof {
        assert(refs_bytes(rs@, rs@.len() as int) =~= Seq::<u8>::empty());
        assert(out@ + Seq::<u8>::empty() =~= out@);
    }
}

fn write_nodes(out: &mut Vec<u8>, nodes: &Vec<Vec<u64>>)
    ensures
        final(out)@ == old(out)@ + nodes_bytes(nodes.deep_view(), 0),
{
    let ghost dv = nodes.deep_view();
    let mut i: usize = 0;
    while i < nodes.len()
        invariant
            i <= nodes@.len(),
            dv == nodes.deep_view(),
            dv.len() == nodes@.len(),
            old(out)@ + nodes_bytes(dv, 0) == out@ + nodes_bytes(dv, i as int),
        decreases nodes@.len() - i,
    {
        let ghost before = out@;
        proof {
            lemma_refs_deep_view(nodes@[i as int]);
            assert(dv[i as int] == nodes@[i as int]@);
        }
        write_vli(out, nodes[i].len() as u64);
        write_refs(out, &nodes[i]);
        proof {
            assert(out@ =~= before + node_entry_bytes(dv[i as int]));
            assert(nodes_bytes(dv, i as int) == node_entry_bytes(dv[i as int]) + nodes_bytes(
                dv,
                i as int + 1,
            ));
            assert(before + (node_entry_bytes(dv[i as int]) + nodes_bytes(dv, i as int + 1)) =~= (
            before + node_entry_bytes(dv[i as int])) + nodes_bytes(dv, i as int + 1));
        }
        i = i + 1;
    }
    proof {
        assert(nodes_bytes(dv, dv.len() as int) =~= Seq::<u8>::empty());
        assert(out@ + Seq::<u8>::empty() =~= out@);
    }
}

/// Encode a sequence of expressions into one container. The output is
/// a function of the input models alone, so equal inputs give
/// byte-identical output.
pub fn encode_exprs(xs: &Vec<BSExp>) -> (r: Vec<u8>)
    requires
        exprs_size(xs.deep_view(), 0) <= POOL_LIMIT,
    ensures
        r@ == encode_bytes(xs.deep_view()),
{
    let ghost es = xs.deep_view();
    let mut atoms: Vec<Vec<u8>> = Vec::new();
    let mut nodes: Vec<Vec<u64>> = Vec::new();
    let mut roots: Vec<u64> = Vec::new();
    proof {
        assert(atoms.deep_view() =~= empty_tables().atoms);
        assert(nodes.deep_view() =~= empty_tables().nodes);
        assert(es.len() == xs@.len());
        assert(forall|l: int| 0 <= l < es.len() ==> es[l] == #[trigger] xs@[l]@);
        assert(Seq::<u64>::empty() + spec_encode_tables(es).1 =~= spec_encode_tables(es).1);
        assert(atoms_weight(empty_tables().atoms, 0) == 0);
        assert(nodes_weight(empty_tables().nodes, 0) == 0);
    }
    let mut k: usize = 0;
    while k < xs.len()
        invariant
            k <= xs@.len(),
            roots@.len() == k,
            es.len() == xs@.len(),
            forall|l: int| 0 <= l < es.len() ==> es[l] == #[trigger] xs@[l]@,
            exprs_size(es, 0) <= POOL_LIMIT,
            tables_wf(atoms.deep_view(), nodes.deep_view()),
            entries_distinct(atoms.deep_view()),
            entries_distinct(nodes.deep_view()),
            tables_weight(EncTables { atoms: atoms.deep_view(), nodes: nodes.deep_view() })
                + exprs_size(es, k as int) <= POOL_LIMIT,
            spec_encode_tables(es).0 == spec_encode_items(
                EncTables { atoms: atoms.deep_view(), nodes: nodes.deep_view() },
                es,
                k as int,
            ).0,
            spec_encode_tables(es).1 == roots@ + spec_encode_items(
                EncTables { atoms: atoms.deep_view(), nodes: nodes.deep_view() },
                es,
                k as int,
            ).1,
        decreases xs@.len() - k,
    {
        let ghost tk = EncTables { atoms: atoms.deep_view(), nodes: nodes.deep_view() };
        proof {
            assert(exprs_size(es, k as int) == expr_size(es[k as int]) + exprs_size(
                es,
                k as int + 1,
            ));
            lemma_encode_expr(tk, es[k as int]);
        }
        let r = encode_expr(&xs[k], &mut atoms, &mut nodes);
        proof {
            let tk1 = EncTables { atoms: atoms.deep_view(), nodes: nodes.deep_view() };
            let rsk1 = spec_encode_items(tk1, es, k as int + 1).1;
            assert(spec_encode_items(tk, es, k as int).1 == seq![r] + rsk1);
            assert(roots@.push(r) + rsk1 =~= roots@ + (seq![r] + rsk1));
        }
        roots.push(r);
        k = k + 1;
    }
    proof {
        let t1 = EncTables { atoms: atoms.deep_view(), nodes: nodes.deep_view() };
        assert(spec_encode_items(t1, es, es.len() as int) == (t1, Seq::<u64>::empty()));
        assert(roots@ + Seq::<u64>::empty() =~= roots@);
        assert(spec_encode_tables(es) == (t1, roots@));
    }
    let ghost av = atoms.deep_view();
    let ghost nv = nodes.deep_view();
    let mut abuf: Vec<u8> = Vec::new();
    write_atoms(&mut abuf, &atoms);
    let mut nbuf: Vec<u8> = Vec::new();
    write_nodes(&mut nbuf, &nodes);
    proof {
        assert(Seq::<u8>::empty() + atoms_bytes(av, 0) =~= atoms_bytes(av, 0));
        assert(Seq::<u8>::empty() + nodes_bytes(nv, 0) =~= nodes_bytes(nv, 0));
    }
    let mut out: Vec<u8> = Vec::new();
    write_vli(&mut out, atoms.len() as u64);
    write_vli(&mut out, abuf.len() as u64);
    write_bytes(&mut out, &abuf);
    write_vli(&mut out, roots.len() as u64);
    write_refs(&mut out, &roots);
    write_vli(&mut out, nodes.len() as u64);
    write_vli(&mut out, nbuf.len() as u64);
    write_bytes(&mut out, &nbuf);
    proof {
        assert(out@ =~= container_bytes(av, roots@, nv));
    }
    out
}

/// Prefix a parsed tail with the entries already taken.
pub open spec fn opt_prepend<T>(pre: Seq<T>, o: Option<(Seq<T>, int)>) -> Option<(Seq<T>, int)> {
    match o {
        Some((rest, end)) => Some((pre + rest, end)),
        None => None,
    }
}

/// Parse `n` atom entries: `vli(length)` then that many raw bytes,
/// each. `None` when the input ends first.
pub open spec fn parse_atom_entries(s: Seq<u8>, pos: int, n: nat) -> Option<(Seq<Seq<u8>>, int)>
    decreases n,
{
    if n == 0 {
        Some((Seq::empty(), pos))
    } else {
        match vli_parse(s, pos) {
            None => None,
            Some((l, p1)) => {
                if p1 + l <= s.len() {
                    let a = s.subrange(p1, p1 + l);
                    opt_prepend(seq![a], parse_atom_entries(s, p1 + l, (n - 1) as nat))
                } else {
                    None
                }
            },
        }
    }
}

/// Parse `n` references, one `vli` each.
pub open spec fn parse_ref_entries(s: Seq<u8>, pos: int, n: nat) -> Option<(Seq<u64>, int)>
    decreases n,
{
    if n == 0 {
        Some((Seq::empty(), pos))
    } else {
        match vli_parse(s, pos) {
            None => None,
            Some((r, p1)) => opt_prepend(seq![r], parse_ref_entries(s, p1, (n - 1) as nat)),
        }
    }
}

/// Parse `n` node entries: `vli(child count)` then that many
/// references, each.
pub open spec fn parse_node_entries(s: Seq<u8>, pos: int, n: nat) -> Option<(Seq<Seq<u64>>, int)>
    decreases n,
{
    if n == 0 {
        Some((Seq::empty(), pos))
    } else {
        match vli_parse(s, pos) {
            None => None,
            Some((c, p1)) => {
                match parse_ref_entries(s, p1, c as nat) {
                    None => None,
                    Some((cs, p2)) => opt_prepend(seq![cs], parse_node_entries(s, p2, (n - 1) as nat)),
                }
            },
        }
    }
}

/// Parse the atom section: count, buffer length, then the entries
/// inside the declared buffer; the section ends where the buffer
/// does, whatever slack the entries leave.
pub open spec fn parse_atom_section(s: Seq<u8>, pos: int) -> Option<(Seq<Seq<u8>>, int)> {
    match vli_parse(s, pos) {
        None => None,
        Some((n, p1)) => match vli_parse(s, p1) {
            None => None,
            Some((m, p2)) => {
                if p2 + m <= s.len() {
                    match parse_atom_entries(s.take(p2 + m), p2, n as nat) {
                        None => None,
                        Some((atoms, _)) => Some((atoms, p2 + m)),
                    }
                } else {
                    None
                }
            },
        },
    }
}

/// Parse the root section: count, then the references.
pub open spec fn parse_root_section(s: Seq<u8>, pos: int) -> Option<(Seq<u64>, int)> {
    match vli_parse(s, pos) {
        None => None,
        Some((n, p1)) => parse_ref_entries(s, p1, n as nat),
    }
}

/// Parse the node section: count, buffer length, then the entries
/// inside the declared buffer.
pub open spec fn parse_node_section(s: Seq<u8>, pos: int) -> Option<(Seq<Seq<u64>>, int)> {
    match vli_parse(s, pos) {
        None => None,
        Some((n, p1)) => match vli_parse(s, p1) {
            None => None,
            Some((m, p2)) => {
                if p2 + m <= s.len() {
                    match parse_node_entries(s.take(p2 + m), p2, n as nat) {
                        None => None,
                        Some((nodes, _)) => Some((nodes, p2 + m)),
                    }
                } else {
                    None
                }
            },
        },
    }
}

/// Parse a whole container into its three tables. `None` means some
/// read ran past the end of the available bytes.
pub open spec fn parse_container(s: Seq<u8>) -> Option<(Seq<Seq<u8>>, Seq<u64>, Seq<Seq<u64>>)> {
    match parse_atom_section(s, 0) {
        None => None,
        Some((atoms, q1)) => match parse_root_section(s, q1) {
            None => None,
            Some((roots, q2)) => match parse_node_section(s, q2) {
                None => None,
                Some((nodes, _)) => Some((atoms, roots, nodes)),
            },
        },
    }
}

fn read_atom_entries(sl: &[u8], pos: usize, n: u64) -> (r: Result<
    (Vec<Vec<u8>>, usize),
    DecodeError,
>)
    requires
        pos <= sl@.len(),
    ensures
        match r {
            Ok((v, end)) => parse_atom_entries(sl@, pos as int, n as nat) == Some(
                (v.deep_view(), end as int),
            ) && pos <= end <= sl@.len(),
            Err(e) => e == DecodeError::TruncatedInput && parse_atom_entries(
                sl@,
                pos as int,
                n as nat,
            ) is None,
        },
{
    let mut acc: Vec<Vec<u8>> = Vec::new();
    let mut p: usize = pos;
    let mut k: u64 = 0;
    proof {
        assert(acc.deep_view() =~= Seq::<Seq<u8>>::empty());
    }
    while k < n
        invariant
            pos <= p <= sl@.len(),
            k <= n,
            acc.deep_view().len() == k,
            parse_atom_entries(sl@, pos as int, n as nat) == opt_prepend(
                acc.deep_view(),
                parse_atom_entries(sl@, p as int, (n - k) as nat),
            ),
        decreases n - k,
    {
        let ghost pre = acc.deep_view();
        let (l, p1) = match u64::read_vli_bytes(sl, p) {
            Ok(x) => x,
            Err(_) => {
                return Err(DecodeError::TruncatedInput);
            },
        };
        if l > (sl.len() - p1) as u64 {
            return Err(DecodeError::TruncatedInput);
        }
        let a = vstd::slice::slice_to_vec(vstd::slice::slice_subrange(sl, p1, p1 + l as usize));
        proof {
            assert(a@ == sl@.subrange(p1 as int, p1 as int + l as int));
            let tail = parse_atom_entries(sl@, p1 as int + l as int, (n - k - 1) as nat);
            if tail is Some {
                let (rest, end) = tail->Some_0;
                assert(pre + (seq![a@] + rest) =~= pre.push(a@) + rest);
            }
            assert(forall|x: Vec<u8>|
                #[trigger] acc@.push(x).len() == acc@.len() + 1);
        }
        acc.push(a);
        proof {
            lemma_bytes_deep_view(acc@[pre.len() as int]);
            assert(acc.deep_view() =~= pre.push(acc@[pre.len() as int]@));
            assert(acc@[pre.len() as int]@ == sl@.subrange(p1 as int, p1 as int + l as int));
        }
        p = p1 + l as usize;
        k = k + 1;
    }
    proof {
        assert(parse_atom_entries(sl@, p as int, 0) == Some((Seq::<Seq<u8>>::empty(), p as int)));
        assert(acc.deep_view() + Seq::<Seq<u8>>::empty() =~= acc.deep_view());
    }
    Ok((acc, p))
}

fn read_ref_entries(sl: &[u8], pos: usize, n: u64) -> (r: Result<(Vec<u64>, usize), DecodeError>)
    requires
        pos <= sl@.len(),
    ensures
        match r {
            Ok((v, end)) => parse_ref_entries(sl@, pos as int, n as nat) == Some(
                (v@, end as int),
            ) && pos <= end <= sl@.len(),
            Err(e) => e == DecodeError::TruncatedInput && parse_ref_entries(
                sl@,
                pos as int,
                n as nat,
            ) is None,
        },
{
    let mut acc: Vec<u64> = Vec::new();
    let mut p: usize = pos;
    let mut k: u64 = 0;
    proof {
        assert(acc@ =~= Seq::<u64>::empty());
    }
    while k < n
        invariant
            pos <= p <= sl@.len(),
            k <= n,
            acc@.len() == k,
            parse_ref_entries(sl@, pos as int, n as nat) == opt_prepend(
                acc@,
                parse_ref_entries(sl@, p as int, (n - k) as nat),
            ),
        decreases n - k,
    {
        let ghost pre = acc@;
        let (v, p1) = match u64::read_vli_bytes(sl, p) {
            Ok(x) => x,
            Err(_) => {
                return Err(DecodeError::TruncatedInput);
            },
        };
        proof {
            let tail = parse_ref_entries(sl@, p1 as int, (n - k - 1) as nat);
            if tail is Some {
                let (rest, end) = tail->Some_0;
                assert(pre + (seq![v] + rest) =~= pre.push(v) + rest);
            }
        }
        acc.push(v);
        p = p1;
        k = k + 1;
    }
    proof {
        assert(parse_ref_entries(sl@, p as int, 0) == Some((Seq::<u64>::empty(), p as int)));
        assert(acc@ + Seq::<u64>::empty() =~= acc@);
    }
    Ok((acc, p))
}

fn read_node_entries(sl: &[u8], pos: usize, n: u64) -> (r: Result<
    (Vec<Vec<u64>>, usize),
    DecodeError,
>)
    requires
        pos <= sl@.len(),
    ensures
        match r {
            Ok((v, end)) => parse_node_entries(sl@, pos as int, n as nat) == Some(
                (v.deep_view(), end as int),
            ) && pos <= end <= sl@.len(),
            Err(e) => e == DecodeError::TruncatedInput && parse_node_entries(
                sl@,
                pos as int,
                n as nat,
            ) is None,
        },
{
    let mut acc: Vec<Vec<u64>> = Vec::new();
    let mut p: usize = pos;
    let mut k: u64 = 0;
    proof {
        assert(acc.deep_view() =~= Seq::<Seq<u64>>::empty());
    }
    while k < n
        invariant
            pos <= p <= sl@.len(),
            k <= n,
            acc.deep_view().len() == k,
            parse_node_entries(sl@, pos as int, n as nat) == opt_prepend(
                acc.deep_view(),
                parse_node_entries(sl@, p as int, (n - k) as nat),
            ),
        decreases n - k,
    {
        let ghost pre = acc.deep_view();
        let (c, p1) = match u64::read_vli_bytes(sl, p) {
            Ok(x) => x,
            Err(_) => {
                return Err(DecodeError::TruncatedInput);
            },
        };
        let (cs, p2) = match read_ref_entries(sl, p1, c) {
            Ok(x) => x,
            Err(_) => {
                return Err(DecodeError::TruncatedInput);
            },
        };
        proof {
            lemma_refs_deep_view(cs);
            let tail = parse_node_entries(sl@, p2 as int, (n - k - 1) as nat);
            if tail is Some {
                let (rest, end) = tail->Some_0;
                assert(pre + (seq![cs@] + rest) =~= pre.push(cs@) + rest);
            }
        }
        acc.push(cs);
        proof {
            assert(acc.deep_view() =~= pre.push(acc@[pre.len() as int]@));
        }
        p = p2;
        k = k + 1;
    }
    proof {
        assert(parse_node_entries(sl@, p as int, 0) == Some((Seq::<Seq<u64>>::empty(), p as int)));
        assert(acc.deep_view() + Seq::<Seq<u64>>::empty() =~= acc.deep_view());
    }
    Ok((acc, p))
}

fn read_atom_section(bytes: &[u8], pos: usize) -> (r: Result<
    (Vec<Vec<u8>>, usize),
    DecodeError,
>)
    requires
        pos <= bytes@.len(),
    ensures
        match r {
            Ok((v, end)) => parse_atom_section(bytes@, pos as int) == Some(
                (v.deep_view(), end as int),
            ) && pos <= end <= bytes@.len(),
            Err(e) => e == DecodeError::TruncatedInput && parse_atom_section(
                bytes@,
                pos as int,
            ) is None,
        },
{
    let (n, p1) = match u64::read_vli_bytes(bytes, pos) {
        Ok(x) => x,
        Err(_) => {
            return Err(DecodeError::TruncatedInput);
        },
    };
    let (m, p2) = match u64::read_vli_bytes(bytes, p1) {
        Ok(x) => x,
        Err(_) => {
            return Err(DecodeError::TruncatedInput);
        },
    };
    if m > (bytes.len() - p2) as u64 {
        return Err(DecodeError::TruncatedInput);
    }
    let end: usize = p2 + m as usize;
    let sl = vstd::slice::slice_subrange(bytes, 0, end);
    proof {
        assert(sl@ =~= bytes@.take(p2 as int + m as int));
    }
    match read_atom_entries(sl, p2, n) {
        Ok((atoms, _)) => Ok((atoms, end)),
        Err(e) => Err(e),
    }
}

fn read_root_section(bytes: &[u8], pos: usize) -> (r: Result<(Vec<u64>, usize), DecodeError>)
    requires
        pos <= bytes@.len(),
    ensures
        match r {
            Ok((v, end)) => parse_root_section(bytes@, pos as int) == Some((v@, end as int)) && pos
                <= end <= bytes@.len(),
            Err(e) => e == DecodeError::TruncatedInput && parse_root_section(
                bytes@,
                pos as int,
            ) is None,
        },
{
    let (n, p1) = match u64::read_vli_bytes(bytes, pos) {
        Ok(x) => x,
        Err(_) => {
            return Err(DecodeError::TruncatedInput);
        },
    };
    read_ref_entries(bytes, p1, n)
}

fn read_node_section(bytes: &[u8], pos: usize) -> (r: Result<
    (Vec<Vec<u64>>, usize),
    DecodeError,
>)
    requires
        pos <= bytes@.len(),
    ensures
        match r {
            Ok((v, end)) => parse_node_section(bytes@, pos as int) == Some(
                (v.deep_view(), end as int),
            ) && pos <= end <= bytes@.len(),
            Err(e) => e == DecodeError::TruncatedInput && parse_node_section(
                bytes@,
                pos as int,
            ) is None,
        },
{
    let (n, p1) = match u64::read_vli_bytes(bytes, pos) {
        Ok(x) => x,
        Err(_) => {
            return Err(DecodeError::TruncatedInput);
        },
    };
    let (m, p2) = match u64::read_vli_bytes(bytes, p1) {
        Ok(x) => x,
        Err(_) => {
            return Err(DecodeError::TruncatedInput);
        },
    };
    if m > (bytes.len() - p2) as u64 {
        return Err(DecodeError::TruncatedInput);
    }
    let end: usize = p2 + m as usize;
    let sl = vstd::slice::slice_subrange(bytes, 0, end);
    proof {
        assert(sl@ =~= bytes@.take(p2 as int + m as int));
    }
    match read_node_entries(sl, p2, n) {
        Ok((nodes, _)) => Ok((nodes, end)),
        Err(e) => Err(e),
    }
}

/// Check every reference: node children must point at atoms, or at
/// nodes of strictly lower index; roots at any atom or node.
#[verifier::loop_isolation(false)]
fn check_references(atoms: &Vec<Vec<u8>>, roots: &Vec<u64>, nodes: &Vec<Vec<u64>>) -> (ok: bool)
    ensures
        ok == (tables_wf(atoms.deep_view(), nodes.deep_view()) && roots_wf(
            roots@,
            atoms.deep_view().len() as int,
            nodes.deep_view().len() as int,
        )),
{
    let ghost av = atoms.deep_view();
    let ghost nv = nodes.deep_view();
    proof {
        assert(av.len() == atoms@.len());
        assert(nv.len() == nodes@.len());
    }
    let mut i: usize = 0;
    while i < nodes.len()
        invariant
            i <= nodes@.len(),
            av == atoms.deep_view(),
            nv == nodes.deep_view(),
            av.len() == atoms@.len(),
            nv.len() == nodes@.len(),
            forall|l: int| 0 <= l < i ==> node_wf(#[trigger] nv[l], av.len() as int, l),
        decreases nodes@.len() - i,
    {
        let ghost cs = nv[i as int];
        proof {
            lemma_refs_deep_view(nodes@[i as int]);
        }
        let entry = &nodes[i];
        let mut k: usize = 0;
        while k < entry.len()
            invariant
                k <= entry@.len(),
                entry@ == cs,
                av.len() == atoms@.len(),
                i < nodes@.len(),
                forall|l: int| 0 <= l < k ==> ref_ok_in_node(#[trigger] cs[l], av.len() as int, i as int),
            decreases entry@.len() - k,
        {
            let c = entry[k];
            if c % 2 == 0 {
                if !(c / 2 < atoms.len() as u64) {
                    proof {
                        assert(!ref_ok_in_node(cs[k as int], av.len() as int, i as int));
                        assert(!node_wf(nv[i as int], av.len() as int, i as int));
                    }
                    return false;
                }
            } else {
                if !(c / 2 < i as u64) {
                    proof {
                        assert(!ref_ok_in_node(cs[k as int], av.len() as int, i as int));
                        assert(!node_wf(nv[i as int], av.len() as int, i as int));
                    }
                    return false;
                }
            }
            k = k + 1;
        }
        i = i + 1;
    }
    let mut k: usize = 0;
    while k < roots.len()
        invariant
            k <= roots@.len(),
            av.len() == atoms@.len(),
            nv.len() == nodes@.len(),
            tables_wf(av, nv),
            forall|l: int| 0 <= l < k ==> ref_ok(#[trigger] roots@[l], av.len() as int, nv.len() as int),
        decreases roots@.len() - k,
    {
        let c = roots[k];
        if c % 2 == 0 {
            if !(c / 2 < atoms.len() as u64) {
                proof {
                    assert(!ref_ok(roots@[k as int], av.len() as int, nv.len() as int));
                }
                return false;
            }
        } else {
            if !(c / 2 < nodes.len() as u64) {
                proof {
                    assert(!ref_ok(roots@[k as int], av.len() as int, nv.len() as int));
                }
                return false;
            }
        }
        k = k + 1;
    }
    true
}

/// Look one reference up: atoms directly, nodes through the memo of
/// already materialized values.
fn resolve_ref(
    c: u64,
    atoms: &Vec<Vec<u8>>,
    memo: &Vec<BSExp>,
    Ghost(nv): Ghost<Seq<Seq<u64>>>,
) -> (r: BSExp)
    requires
        memo@.len() <= nv.len(),
        ref_ok(c, atoms.deep_view().len() as int, memo@.len() as int),
        forall|j: int|
            0 <= j < memo@.len() && j < 0x8000_0000_0000_0000 ==> (#[trigger] memo@[j])@
                == expand_ref(atoms.deep_view(), nv, node_ref(j)),
    ensures
        r@ == expand_ref(atoms.deep_view(), nv, c),
{
    let ghost av = atoms.deep_view();
    proof {
        assert(av.len() == atoms@.len());
        assert(c / 2 < 0x8000_0000_0000_0000) by (bit_vector);
    }
    if c % 2 == 0 {
        let n = atoms.len();
        proof {
            assert(((c / 2) as int) < n);
        }
        let idx = (c / 2) as usize;
        let a = atoms[idx].clone();
        proof {
            lemma_bytes_deep_view(atoms@[idx as int]);
            assert(a@ =~= atoms@[idx as int]@);
        }
        BSExp::Atom(a)
    } else {
        let n = memo.len();
        proof {
            assert(((c / 2) as int) < n);
        }
        let idx = (c / 2) as usize;
        proof {
            assert(node_ref(idx as int) == c);
        }
        memo[idx].clone()
    }
}

/// Materialize every node bottom-up, memoizing each by index, then
/// resolve the roots against the finished memo.
#[verifier::loop_isolation(false)]
fn materialize(atoms: &Vec<Vec<u8>>, roots: &Vec<u64>, nodes: &Vec<Vec<u64>>) -> (r: Vec<BSExp>)
    requires
        tables_wf(atoms.deep_view(), nodes.deep_view()),
        roots_wf(roots@, atoms.deep_view().len() as int, nodes.deep_view().len() as int),
    ensures
        r.deep_view() == expand_roots(atoms.deep_view(), nodes.deep_view(), roots@),
{
    let ghost av = atoms.deep_view();
    let ghost nv = nodes.deep_view();
    let mut memo: Vec<BSExp> = Vec::new();
    let mut i: usize = 0;
    proof {
        assert(av.len() == atoms@.len());
        assert(nv.len() == nodes@.len());
    }
    while i < nodes.len()
        invariant
            i <= nodes@.len(),
            memo@.len() == i,
            av == atoms.deep_view(),
            nv == nodes.deep_view(),
            av.len() == atoms@.len(),
            nv.len() == nodes@.len(),
            tables_wf(av, nv),
            forall|j: int|
                0 <= j < i && j < 0x8000_0000_0000_0000 ==> (#[trigger] memo@[j])@ == expand_ref(
                    av,
                    nv,
                    node_ref(j),
                ),
        decreases nodes@.len() - i,
    {
        let ghost cs = nv[i as int];
        proof {
            lemma_refs_deep_view(nodes@[i as int]);
            assert(node_wf(cs, av.len() as int, i as int));
        }
        let entry = &nodes[i];
        let mut children: Vec<BSExp> = Vec::new();
        let mut k: usize = 0;
        while k < entry.len()
            invariant
                k <= entry@.len(),
                entry@ == cs,
                children@.len() == k,
                memo@.len() == i,
                i < nodes@.len(),
                av == atoms.deep_view(),
                nv == nodes.deep_view(),
                av.len() == atoms@.len(),
                nv.len() == nodes@.len(),
                tables_wf(av, nv),
                node_wf(cs, av.len() as int, i as int),
                forall|j: int|
                    0 <= j < i && j < 0x8000_0000_0000_0000 ==> (#[trigger] memo@[j])@
                        == expand_ref(av, nv, node_ref(j)),
                forall|l: int|
                    0 <= l < k ==> (#[trigger] children@[l])@ == expand_ref(av, nv, cs[l]),
            decreases entry@.len() - k,
        {
            let c = entry[k];
            proof {
                assert(ref_ok_in_node(cs[k as int], av.len() as int, i as int));
            }
            let child = resolve_ref(c, atoms, &memo, Ghost(nv));
            children.push(child);
            k = k + 1;
        }
        proof {
            crate::lemma_list_view(children);
            assert(children.deep_view().len() == cs.len());
        }
        let ghost cdv = children.deep_view();
        memo.push(BSExp::List(children));
        proof {
            if (i as int) < 0x8000_0000_0000_0000 {
                assert(memo@[i as int]@ == Expr::List(cdv));
                lemma_expand_node(av, nv, i as int, cdv, cs);
                assert(memo@[i as int]@ == expand_ref(av, nv, node_ref(i as int)));
            }
        }
        i = i + 1;
    }
    let mut out: Vec<BSExp> = Vec::new();
    let mut k: usize = 0;
    while k < roots.len()
        invariant
            k <= roots@.len(),
            out@.len() == k,
            memo@.len() == nv.len(),
            av == atoms.deep_view(),
            nv == nodes.deep_view(),
            av.len() == atoms@.len(),
            nv.len() == nodes@.len(),
            tables_wf(av, nv),
            roots_wf(roots@, av.len() as int, nv.len() as int),
            forall|j: int|
                0 <= j < memo@.len() && j < 0x8000_0000_0000_0000 ==> (#[trigger] memo@[j])@
                    == expand_ref(av, nv, node_ref(j)),
            forall|l: int| 0 <= l < k ==> (#[trigger] out@[l])@ == expand_ref(av, nv, roots@[l]),
        decreases roots@.len() - k,
    {
        let c = roots[k];
        proof {
            assert(ref_ok(roots@[k as int], av.len() as int, nv.len() as int));
        }
        let e = resolve_ref(c, atoms, &memo, Ghost(nv));
        out.push(e);
        k = k + 1;
    }
    proof {
        assert(out.deep_view() =~= expand_roots(av, nv, roots@));
    }
    out
}

/// Decode one container into expressions. Succeeds exactly on byte
/// buffers whose container structure parses and whose references are
/// all in range and acyclic; the error says which condition failed.
pub fn decode_exprs(bytes: &[u8]) -> (r: Result<Vec<BSExp>, DecodeError>)
    ensures
        match r {
            Ok(es) => ({
                &&& parse_container(bytes@) matches Some((a, rs, ns))
                &&& tables_wf(a, ns)
                &&& roots_wf(rs, a.len() as int, ns.len() as int)
                &&& es.deep_view() == expand_roots(a, ns, rs)
            }),
            Err(e) => {
                if e == DecodeError::TruncatedInput {
                    parse_container(bytes@) is None
                } else {
                    e == DecodeError::InvalidReference && (parse_container(bytes@) matches Some(
                        (a, rs, ns),
                    ) && !(tables_wf(a, ns) && roots_wf(rs, a.len() as int, ns.len() as int)))
                }
            },
        },
{
    let (atoms, q1) = match read_atom_section(bytes, 0) {
        Ok(x) => x,
        Err(e) => {
            return Err(e);
        },
    };
    let (roots, q2) = match read_root_section(bytes, q1) {
        Ok(x) => x,
        Err(e) => {
            return Err(e);
        },
    };
    let (nodes, _q3) = match read_node_section(bytes, q2) {
        Ok(x) => x,
        Err(e) => {
            return Err(e);
        },
    };
    if !check_references(&atoms, &roots, &nodes) {
        return Err(DecodeError::InvalidReference);
    }
    Ok(materialize(&atoms, &roots, &nodes))
}

/// Serialization to and from the container format.
pub trait BSEFile: Sized {
    /// The sequence of expressions this value models.
    spec fn models(&self) -> Seq<Expr>;

    /// Serialize into one container, deduplicating atoms and
    /// structurally identical sub-lists. The output is a function of
    /// the models alone.
    fn to_bsefile(&self) -> (r: Vec<u8>)
        requires
            exprs_size(self.models(), 0) <= POOL_LIMIT,
        ensures
            r@ == encode_bytes(self.models()),
    ;

    /// Decode one container. Succeeds exactly on buffers whose
    /// structure parses and whose references are in range and
    /// acyclic; no partial result accompanies an error.
    fn from_bsefile(binary_file: &[u8]) -> (r: Result<Self, DecodeError>)
        ensures
            match r {
                Ok(es) => ({
                    &&& parse_container(binary_file@) matches Some((a, rs, ns))
                    &&& tables_wf(a, ns)
                    &&& roots_wf(rs, a.len() as int, ns.len() as int)
                    &&& es.models() == expand_roots(a, ns, rs)
                }),
                Err(e) => {
                    if e == DecodeError::TruncatedInput {
                        parse_container(binary_file@) is None
                    } else {
                        e == DecodeError::InvalidReference && (parse_container(
                            binary_file@,
                        ) matches Some((a, rs, ns)) && !(tables_wf(a, ns) && roots_wf(
                            rs,
                            a.len() as int,
                            ns.len() as int,
                        )))
                    }
                },
            },
    ;
}

impl BSEFile for Vec<BSExp> {
    open spec fn models(&self) -> Seq<Expr> {
        self.deep_view()
    }

    fn to_bsefile(&self) -> (r: Vec<u8>) {
        encode_exprs(self)
    }

    fn from_bsefile(binary_file: &[u8]) -> (r: Result<Self, DecodeError>) {
        decode_exprs(binary_file)
    }
}

/// What encoding builds, for the whole input: well-formed,
/// duplicate-free tables whose roots expand back to the input. The
/// distinctness of `atoms` is the atom dedup guarantee: one table
/// entry per distinct byte content; that of `nodes` is the structural
/// sharing guarantee: one entry per distinct child sequence.
pub proof fn lemma_encode_tables(es: Seq<Expr>)
    requires
        exprs_size(es, 0) <= POOL_LIMIT,
    ensures
        ({
            let (t, roots) = spec_encode_tables(es);
            &&& tables_wf(t.atoms, t.nodes)
            &&& entries_distinct(t.atoms)
            &&& entries_distinct(t.nodes)
            &&& roots_wf(roots, t.atoms.len() as int, t.nodes.len() as int)
            &&& roots.len() == es.len()
            &&& tables_weight(t) <= exprs_size(es, 0)
            &&& expand_roots(t.atoms, t.nodes, roots) == es
        }),
{
    let t0 = empty_tables();
    assert(atoms_weight(t0.atoms, 0) == 0);
    assert(nodes_weight(t0.nodes, 0) == 0);
    lemma_encode_items(t0, es, 0);
    let (t, roots) = spec_encode_tables(es);
    assert(expand_roots(t.atoms, t.nodes, roots) =~= es);
}

/// Determinism: the wire form is a function of the models alone, so
/// two encodings of equal inputs are byte-identical.
pub proof fn lemma_encode_deterministic(xs: Vec<BSExp>, ys: Vec<BSExp>)
    requires
        xs.deep_view() == ys.deep_view(),
    ensures
        encode_bytes(xs.deep_view()) == encode_bytes(ys.deep_view()),
{
}

/// Splitting a known concatenation inside a larger buffer.
pub proof fn lemma_subrange_concat(s: Seq<u8>, pos: int, a: Seq<u8>, b: Seq<u8>)
    requires
        0 <= pos,
        pos + a.len() + b.len() <= s.len(),
        s.subrange(pos, pos + a.len() + b.len()) == a + b,
    ensures
        s.subrange(pos, pos + a.len() as int) == a,
        s.subrange(pos + a.len() as int, pos + a.len() + b.len()) == b,
{
    let l = a.len() as int;
    let m = b.len() as int;
    assert forall|k: int| 0 <= k < l implies s[pos + k] == a[k] by {
        assert(s.subrange(pos, pos + l + m)[k] == (a + b)[k]);
    }
    assert(s.subrange(pos, pos + l) =~= a);
    assert forall|k: int| 0 <= k < m implies s[pos + l + k] == b[k] by {
        assert(s.subrange(pos, pos + l + m)[l + k] == (a + b)[l + k]);
    }
    assert(s.subrange(pos + l, pos + l + m) =~= b);
}

/// Parsing the serialized atom entries from `i` on gives them back.
proof fn lemma_parse_atom_entries_rt(s: Seq<u8>, pos: int, atoms: Seq<Seq<u8>>, i: int)
    requires
        0 <= i <= atoms.len(),
        0 <= pos,
        pos + atoms_bytes(atoms, i).len() <= s.len(),
        s.subrange(pos, pos + atoms_bytes(atoms, i).len() as int) == atoms_bytes(atoms, i),
        forall|k: int| 0 <= k < atoms.len() ==> #[trigger] atoms[k].len() <= u64::MAX,
        atoms.len() <= u64::MAX,
    ensures
        parse_atom_entries(s, pos, (atoms.len() - i) as nat) == Some(
            (atoms.skip(i), pos + atoms_bytes(atoms, i).len()),
        ),
    decreases atoms.len() - i,
{
    if i == atoms.len() {
        assert(atoms.skip(i) =~= Seq::<Seq<u8>>::empty());
    } else {
        let entry = atom_entry_bytes(atoms[i]);
        let rest = atoms_bytes(atoms, i + 1);
        assert(atoms_bytes(atoms, i) == entry + rest);
        lemma_subrange_concat(s, pos, entry, rest);
        let lb = vli_bytes(atoms[i].len() as u64);
        let content = atoms[i];
        assert(entry == lb + content);
        lemma_subrange_concat(s, pos, lb, content);
        lemma_vli_round_trip(s, pos, atoms[i].len() as u64);
        let p1 = pos + lb.len() as int;
        assert(vli_parse(s, pos) == Some((atoms[i].len() as u64, p1)));
        let p2 = p1 + content.len() as int;
        lemma_parse_atom_entries_rt(s, p2, atoms, i + 1);
        assert(seq![content] + atoms.skip(i + 1) =~= atoms.skip(i));
    }
}

/// Parsing the serialized references from `i` on gives them back.
proof fn lemma_parse_ref_entries_rt(s: Seq<u8>, pos: int, rs: Seq<u64>, i: int)
    requires
        0 <= i <= rs.len(),
        0 <= pos,
        pos + refs_bytes(rs, i).len() <= s.len(),
        s.subrange(pos, pos + refs_bytes(rs, i).len() as int) == refs_bytes(rs, i),
        rs.len() <= u64::MAX,
    ensures
        parse_ref_entries(s, pos, (rs.len() - i) as nat) == Some(
            (rs.skip(i), pos + refs_bytes(rs, i).len()),
        ),
    decreases rs.len() - i,
{
    if i == rs.len() {
        assert(rs.skip(i) =~= Seq::<u64>::empty());
    } else {
        let lb = vli_bytes(rs[i]);
        let rest = refs_bytes(rs, i + 1);
        assert(refs_bytes(rs, i) == lb + rest);
        lemma_subrange_concat(s, pos, lb, rest);
        lemma_vli_round_trip(s, pos, rs[i]);
        let p1 = pos + lb.len() as int;
        lemma_parse_ref_entries_rt(s, p1, rs, i + 1);
        assert(seq![rs[i]] + rs.skip(i + 1) =~= rs.skip(i));
    }
}

/// Parsing the serialized node entries from `i` on gives them back.
proof fn lemma_parse_node_entries_rt(s: Seq<u8>, pos: int, nodes: Seq<Seq<u64>>, i: int)
    requires
        0 <= i <= nodes.len(),
        0 <= pos,
        pos + nodes_bytes(nodes, i).len() <= s.len(),
        s.subrange(pos, pos + nodes_bytes(nodes, i).len() as int) == nodes_bytes(nodes, i),
        forall|k: int| 0 <= k < nodes.len() ==> #[trigger] nodes[k].len() <= u64::MAX,
        nodes.len() <= u64::MAX,
    ensures
        parse_node_entries(s, pos, (nodes.len() - i) as nat) == Some(
            (nodes.skip(i), pos + nodes_bytes(nodes, i).len()),
        ),
    decreases nodes.len() - i,
{
    if i == nodes.len() {
        assert(nodes.skip(i) =~= Seq::<Seq<u64>>::empty());
    } else {
        let entry = node_entry_bytes(nodes[i]);
        let rest = nodes_bytes(nodes, i + 1);
        assert(nodes_bytes(nodes, i) == entry + rest);
        lemma_subrange_concat(s, pos, entry, rest);
        let cb = vli_bytes(nodes[i].len() as u64);
        let refs = refs_bytes(nodes[i], 0);
        assert(entry == cb + refs);
        lemma_subrange_concat(s, pos, cb, refs);
        lemma_vli_round_trip(s, pos, nodes[i].len() as u64);
        let p1 = pos + cb.len() as int;
        lemma_parse_ref_entries_rt(s, p1, nodes[i], 0);
        assert(nodes[i].skip(0) =~= nodes[i]);
        let p2 = p1 + refs.len() as int;
        lemma_parse_node_entries_rt(s, p2, nodes, i + 1);
        assert(seq![nodes[i]] + nodes.skip(i + 1) =~= nodes.skip(i));
    }
}

/// Parsing the serialized atom section gives the table back.
proof fn lemma_parse_atom_section_rt(s: Seq<u8>, pos: int, atoms: Seq<Seq<u8>>)
    requires
        0 <= pos,
        pos + atom_section_bytes(atoms).len() <= s.len(),
        s.subrange(pos, pos + atom_section_bytes(atoms).len() as int) == atom_section_bytes(atoms),
        forall|k: int| 0 <= k < atoms.len() ==> #[trigger] atoms[k].len() <= u64::MAX,
        atoms.len() <= u64::MAX,
        atoms_bytes(atoms, 0).len() <= u64::MAX,
    ensures
        parse_atom_section(s, pos) == Some((atoms, pos + atom_section_bytes(atoms).len())),
{
    let nb = vli_bytes(atoms.len() as u64);
    let buf = atoms_bytes(atoms, 0);
    let mb = vli_bytes(buf.len() as u64);
    assert(atom_section_bytes(atoms) == nb + (mb + buf));
    lemma_subrange_concat(s, pos, nb, mb + buf);
    lemma_vli_round_trip(s, pos, atoms.len() as u64);
    let p1 = pos + nb.len() as int;
    lemma_subrange_concat(s, p1, mb, buf);
    lemma_vli_round_trip(s, p1, buf.len() as u64);
    let p2 = p1 + mb.len() as int;
    let aend = p2 + buf.len() as int;
    let st = s.take(aend);
    assert(st.subrange(p2, p2 + buf.len() as int) =~= s.subrange(p2, p2 + buf.len() as int));
    lemma_parse_atom_entries_rt(st, p2, atoms, 0);
    assert(atoms.skip(0) =~= atoms);
}

/// Parsing the serialized root section gives the roots back.
proof fn lemma_parse_root_section_rt(s: Seq<u8>, pos: int, roots: Seq<u64>)
    requires
        0 <= pos,
        pos + root_section_bytes(roots).len() <= s.len(),
        s.subrange(pos, pos + root_section_bytes(roots).len() as int) == root_section_bytes(roots),
        roots.len() <= u64::MAX,
    ensures
        parse_root_section(s, pos) == Some((roots, pos + root_section_bytes(roots).len())),
{
    let nb = vli_bytes(roots.len() as u64);
    let buf = refs_bytes(roots, 0);
    assert(root_section_bytes(roots) == nb + buf);
    lemma_subrange_concat(s, pos, nb, buf);
    lemma_vli_round_trip(s, pos, roots.len() as u64);
    let p1 = pos + nb.len() as int;
    lemma_parse_ref_entries_rt(s, p1, roots, 0);
    assert(roots.skip(0) =~= roots);
}

/// Parsing the serialized node section gives the table back.
proof fn lemma_parse_node_section_rt(s: Seq<u8>, pos: int, nodes: Seq<Seq<u64>>)
    requires
        0 <= pos,
        pos + node_section_bytes(nodes).len() <= s.len(),
        s.subrange(pos, pos + node_section_bytes(nodes).len() as int) == node_section_bytes(nodes),
        forall|k: int| 0 <= k < nodes.len() ==> #[trigger] nodes[k].len() <= u64::MAX,
        nodes.len() <= u64::MAX,
        nodes_bytes(nodes, 0).len() <= u64::MAX,
    ensures
        parse_node_section(s, pos) == Some((nodes, pos + node_section_bytes(nodes).len())),
{
    let nb = vli_bytes(nodes.len() as u64);
    let buf = nodes_bytes(nodes, 0);
    let mb = vli_bytes(buf.len() as u64);
    assert(node_section_bytes(nodes) == nb + (mb + buf));
    lemma_subrange_concat(s, pos, nb, mb + buf);
    lemma_vli_round_trip(s, pos, nodes.len() as u64);
    let p1 = pos + nb.len() as int;
    lemma_subrange_concat(s, p1, mb, buf);
    lemma_vli_round_trip(s, p1, buf.len() as u64);
    let p2 = p1 + mb.len() as int;
    let nend = p2 + buf.len() as int;
    let st = s.take(nend);
    assert(st.subrange(p2, p2 + buf.len() as int) =~= s.subrange(p2, p2 + buf.len() as int));
    lemma_parse_node_entries_rt(st, p2, nodes, 0);
    assert(nodes.skip(0) =~= nodes);
}

/// Parsing a serialized container gives its three tables back.
pub proof fn lemma_parse_container_rt(atoms: Seq<Seq<u8>>, roots: Seq<u64>, nodes: Seq<Seq<u64>>)
    requires
        forall|k: int| 0 <= k < atoms.len() ==> #[trigger] atoms[k].len() <= u64::MAX,
        forall|k: int| 0 <= k < nodes.len() ==> #[trigger] nodes[k].len() <= u64::MAX,
        atoms.len() <= u64::MAX,
        roots.len() <= u64::MAX,
        nodes.len() <= u64::MAX,
        atoms_bytes(atoms, 0).len() <= u64::MAX,
        nodes_bytes(nodes, 0).len() <= u64::MAX,
    ensures
        parse_container(container_bytes(atoms, roots, nodes)) == Some((atoms, roots, nodes)),
        parse_atom_section(container_bytes(atoms, roots, nodes), 0) == Some(
            (atoms, atom_section_bytes(atoms).len() as int),
        ),
        parse_root_section(
            container_bytes(atoms, roots, nodes),
            atom_section_bytes(atoms).len() as int,
        ) == Some(
            (roots, atom_section_bytes(atoms).len() + root_section_bytes(roots).len() as int),
        ),
        parse_node_section(
            container_bytes(atoms, roots, nodes),
            atom_section_bytes(atoms).len() + root_section_bytes(roots).len() as int,
        ) == Some((nodes, container_bytes(atoms, roots, nodes).len() as int)),
{
    let s = container_bytes(atoms, roots, nodes);
    let sa = atom_section_bytes(atoms);
    let sr = root_section_bytes(roots);
    let sn = node_section_bytes(nodes);
    assert(s == sa + (sr + sn));
    assert(s.subrange(0, s.len() as int) =~= s);
    lemma_subrange_concat(s, 0, sa, sr + sn);
    lemma_parse_atom_section_rt(s, 0, atoms);
    let q1 = sa.len() as int;
    lemma_subrange_concat(s, q1, sr, sn);
    lemma_parse_root_section_rt(s, q1, roots);
    let q2 = q1 + sr.len() as int;
    lemma_parse_node_section_rt(s, q2, nodes);
}

proof fn lemma_atoms_bytes_len(atoms: Seq<Seq<u8>>, i: int)
    requires
        0 <= i <= atoms.len(),
    ensures
        atoms_bytes(atoms, i).len() <= 9 * atoms_weight(atoms, i),
    decreases atoms.len() - i,
{
    if i < atoms.len() {
        lemma_atoms_bytes_len(atoms, i + 1);
        assert(vli_len(atoms[i].len() as u64) <= 9);
    }
}

proof fn lemma_refs_bytes_len(rs: Seq<u64>, i: int)
    requires
        0 <= i <= rs.len(),
    ensures
        refs_bytes(rs, i).len() <= 9 * (rs.len() - i),
    decreases rs.len() - i,
{
    if i < rs.len() {
        lemma_refs_bytes_len(rs, i + 1);
        assert(vli_len(rs[i]) <= 9);
    }
}

proof fn lemma_nodes_bytes_len(nodes: Seq<Seq<u64>>, i: int)
    requires
        0 <= i <= nodes.len(),
    ensures
        nodes_bytes(nodes, i).len() <= 9 * nodes_weight(nodes, i),
    decreases nodes.len() - i,
{
    if i < nodes.len() {
        lemma_nodes_bytes_len(nodes, i + 1);
        lemma_refs_bytes_len(nodes[i], 0);
        assert(vli_len(nodes[i].len() as u64) <= 9);
    }
}

proof fn lemma_atoms_weight_elem(atoms: Seq<Seq<u8>>, i: int, k: int)
    requires
        0 <= i <= k < atoms.len(),
    ensures
        1 + atoms[k].len() <= atoms_weight(atoms, i),
    decreases k - i,
{
    if i < k {
        lemma_atoms_weight_elem(atoms, i + 1, k);
    }
}

proof fn lemma_nodes_weight_elem(nodes: Seq<Seq<u64>>, i: int, k: int)
    requires
        0 <= i <= k < nodes.len(),
    ensures
        1 + nodes[k].len() <= nodes_weight(nodes, i),
    decreases k - i,
{
    if i < k {
        lemma_nodes_weight_elem(nodes, i + 1, k);
    }
}

proof fn lemma_exprs_size_ge_len(es: Seq<Expr>, i: int)
    requires
        0 <= i <= es.len(),
    ensures
        exprs_size(es, i) >= es.len() - i,
    decreases es.len() - i,
{
    if i < es.len() {
        lemma_exprs_size_ge_len(es, i + 1);
        match es[i] {
            Expr::Atom(b) => {
                assert(expr_size(es[i]) == 1 + b.len());
            },
            Expr::List(cs) => {
                assert(expr_size(es[i]) == 1 + cs.len() + exprs_size(cs, 0));
            },
        }
    }
}

/// Round trip: the container the encoder emits for `es` parses back
/// to well-formed tables whose roots expand to exactly `es`. Together
/// with the decoder's contract this gives decode(encode(es)) == es.
pub proof fn lemma_round_trip(es: Seq<Expr>)
    requires
        exprs_size(es, 0) <= POOL_LIMIT,
    ensures
        ({
            let (t, roots) = spec_encode_tables(es);
            &&& parse_container(encode_bytes(es)) == Some((t.atoms, roots, t.nodes))
            &&& tables_wf(t.atoms, t.nodes)
            &&& roots_wf(roots, t.atoms.len() as int, t.nodes.len() as int)
            &&& expand_roots(t.atoms, t.nodes, roots) == es
        }),
{
    lemma_encode_table_bounds(es);
    let (t, roots) = spec_encode_tables(es);
    lemma_parse_container_rt(t.atoms, roots, t.nodes);
}

/// The numeric bounds the wire format needs, derived from the size
/// precondition on the input.
proof fn lemma_encode_table_bounds(es: Seq<Expr>)
    requires
        exprs_size(es, 0) <= POOL_LIMIT,
    ensures
        ({
            let (t, roots) = spec_encode_tables(es);
            &&& tables_wf(t.atoms, t.nodes)
            &&& entries_distinct(t.atoms)
            &&& entries_distinct(t.nodes)
            &&& roots_wf(roots, t.atoms.len() as int, t.nodes.len() as int)
            &&& expand_roots(t.atoms, t.nodes, roots) == es
            &&& (forall|k: int| 0 <= k < t.atoms.len() ==> #[trigger] t.atoms[k].len() <= u64::MAX)
            &&& (forall|k: int| 0 <= k < t.nodes.len() ==> #[trigger] t.nodes[k].len() <= u64::MAX)
            &&& t.atoms.len() <= u64::MAX
            &&& roots.len() <= u64::MAX
            &&& t.nodes.len() <= u64::MAX
            &&& atoms_bytes(t.atoms, 0).len() <= u64::MAX
            &&& nodes_bytes(t.nodes, 0).len() <= u64::MAX
        }),
{
    lemma_encode_tables(es);
    let (t, roots) = spec_encode_tables(es);
    lemma_atoms_weight_ge_len(t.atoms, 0);
    lemma_nodes_weight_ge_len(t.nodes, 0);
    lemma_exprs_size_ge_len(es, 0);
    lemma_atoms_bytes_len(t.atoms, 0);
    lemma_nodes_bytes_len(t.nodes, 0);
    assert forall|k: int| 0 <= k < t.atoms.len() implies #[trigger] t.atoms[k].len()
        <= u64::MAX by {
        lemma_atoms_weight_elem(t.atoms, 0, k);
    }
    assert forall|k: int| 0 <= k < t.nodes.len() implies #[trigger] t.nodes[k].len()
        <= u64::MAX by {
        lemma_nodes_weight_elem(t.nodes, 0, k);
    }
}

proof fn lemma_parse_ref_entries_bounds(s: Seq<u8>, pos: int, n: nat)
    requires
        0 <= pos <= s.len(),
    ensures
        parse_ref_entries(s, pos, n) matches Some(r) ==> pos <= r.1 <= s.len(),
    decreases n,
{
    if n > 0 {
        lemma_vli_parse_bounds(s, pos);
        match vli_parse(s, pos) {
            Some((v, p1)) => {
                lemma_parse_ref_entries_bounds(s, p1, (n - 1) as nat);
            },
            None => {},
        }
    }
}

/// Reference runs read only the bytes they consume: truncating behind
/// the run changes nothing, truncating into it makes it fail.
proof fn lemma_parse_ref_entries_prefix(s: Seq<u8>, nlim: int, pos: int, n: nat)
    requires
        0 <= nlim <= s.len(),
        0 <= pos <= nlim,
    ensures
        parse_ref_entries(s, pos, n) matches Some(r) ==> parse_ref_entries(s.take(nlim), pos, n)
            == (if r.1 <= nlim {
            parse_ref_entries(s, pos, n)
        } else {
            None::<(Seq<u64>, int)>
        }),
        parse_ref_entries(s, pos, n) is None ==> parse_ref_entries(s.take(nlim), pos, n) is None,
    decreases n,
{
    if n > 0 {
        lemma_vli_parse_bounds(s, pos);
        lemma_vli_parse_prefix(s, nlim, pos);
        match vli_parse(s, pos) {
            Some((v, p1)) => {
                lemma_parse_ref_entries_bounds(s, p1, (n - 1) as nat);
                if p1 <= nlim {
                    lemma_parse_ref_entries_prefix(s, nlim, p1, (n - 1) as nat);
                }
            },
            None => {},
        }
    }
}

/// Truncation safety: no strict prefix of an encoded container
/// parses; the decoder answers `TruncatedInput` on every one of them.
pub proof fn lemma_truncation_fails(es: Seq<Expr>, n: int)
    requires
        exprs_size(es, 0) <= POOL_LIMIT,
        0 <= n < encode_bytes(es).len(),
    ensures
        parse_container(encode_bytes(es).take(n)) is None,
{
    lemma_round_trip(es);
    let (t, roots) = spec_encode_tables(es);
    let atoms = t.atoms;
    let nodes = t.nodes;
    let s = encode_bytes(es);
    let st = s.take(n);
    let sa = atom_section_bytes(atoms);
    let sr = root_section_bytes(roots);
    let sn = node_section_bytes(nodes);
    let q1 = sa.len() as int;
    let q2 = q1 + sr.len() as int;
    lemma_encode_table_bounds(es);
    lemma_parse_container_rt(atoms, roots, nodes);
    assert(parse_atom_section(s, 0) == Some((atoms, q1)));
    assert(parse_root_section(s, q1) == Some((roots, q2)));
    assert(parse_node_section(s, q2) == Some((nodes, s.len() as int)));
    // Atom section of the prefix.
    lemma_vli_parse_bounds(s, 0);
    lemma_vli_parse_prefix(s, n, 0);
    match vli_parse(s, 0) {
        None => {},
        Some((cnt_a, p1)) => {
            if p1 > n {
                assert(vli_parse(st, 0) is None);
            } else {
                lemma_vli_parse_bounds(s, p1);
                lemma_vli_parse_prefix(s, n, p1);
                match vli_parse(s, p1) {
                    None => {},
                    Some((m_a, p2)) => {
                        if p2 > n {
                            assert(vli_parse(st, p1) is None);
                        } else {
                            let aend = p2 + m_a as int;
                            assert(aend == q1);
                            if aend > n {
                                assert(parse_atom_section(st, 0) is None);
                            } else {
                                assert(st.take(aend) =~= s.take(aend));
                                assert(parse_atom_section(st, 0) == Some((atoms, q1)));
                                // Root section of the prefix.
                                lemma_vli_parse_bounds(s, q1);
                                lemma_vli_parse_prefix(s, n, q1);
                                match vli_parse(s, q1) {
                                    None => {},
                                    Some((cnt_r, p3)) => {
                                        if p3 > n {
                                            assert(vli_parse(st, q1) is None);
                                            assert(parse_root_section(st, q1) is None);
                                        } else {
                                            lemma_parse_ref_entries_bounds(s, p3, cnt_r as nat);
                                            lemma_parse_ref_entries_prefix(
                                                s,
                                                n,
                                                p3,
                                                cnt_r as nat,
                                            );
                                            if q2 > n {
                                                assert(parse_root_section(st, q1) is None);
                                            } else {
                                                assert(parse_root_section(st, q1) == Some(
                                                    (roots, q2),
                                                ));
                                                // Node section: its buffer ends at s.len() > n,
                                                // so some read must fail.
                                                lemma_vli_parse_bounds(s, q2);
                                                lemma_vli_parse_prefix(s, n, q2);
                                                match vli_parse(s, q2) {
                                                    None => {},
                                                    Some((cnt_n, p4)) => {
                                                        if p4 > n {
                                                            assert(vli_parse(st, q2) is None);
                                                        } else {
                                                            lemma_vli_parse_bounds(s, p4);
                                                            lemma_vli_parse_prefix(s, n, p4);
                                                            match vli_parse(s, p4) {
                                                                None => {},
                                                                Some((m_n, p5)) => {
                                                                    if p5 > n {
                                                                        assert(vli_parse(st, p4) is None);
                                                                    } else {
                                                                        assert(p5 + m_n as int
                                                                            == s.len());
                                                                        assert(p5 + m_n > st.len());
                                                                        assert(parse_node_section(
                                                                            st,
                                                                            q2,
                                                                        ) is None);
                                                                    }
                                                                },
                                                            }
                                                        }
                                                    },
                                                }
                                            }
                                        }
                                    },
                                }
                            }
                        }
                    },
                }
            }
        },
    }
}

} // verus!
