//! The mathematical models that the contracts speak of.
//!
//! Every executable type of the engine has a view into these models: a value
//! becomes a [`ValueModel`], an expression an [`ExprModel`], and a node list a
//! sequence of [`NodeModel`]s. The evaluation semantics is stated over them.

use vstd::prelude::*;

verus! {

/// The mathematical value of a [`crate::Value`].
///
/// An object is modelled as the sequence of its name/value fields, in the
/// order the object holds them (a well-formed object keeps them sorted by
/// name, so that structural equality is equality of the underlying mapping).
pub enum ValueModel {
    Int(int),
    Str(Seq<char>),
    Bool(bool),
    Obj(Seq<(Seq<char>, ValueModel)>),
    Indet,
}

/// The mathematical value of a [`crate::Response`].
pub struct RespModel {
    pub status: int,
    pub status_text: Seq<char>,
    pub url: Seq<char>,
    pub body: ValueModel,
}

/// The mathematical value of a [`crate::Expression`].
pub enum ExprModel {
    StringConstant(Seq<char>),
    Request { url: Seq<char>, response: Option<RespModel>, error: Option<Seq<char>> },
    Equals { target: Seq<char>, value: ValueModel },
    GetProperty { target: Seq<char>, field: Seq<char> },
}

/// The mathematical value of a [`crate::Node`]: a named expression.
pub struct NodeModel {
    pub name: Seq<char>,
    pub expr: ExprModel,
}

/// The sequences agree before position `i`, and at `i` either `a` ends while
/// `b` goes on, or `a` has the smaller character.
pub open spec fn lex_lt_at(a: Seq<char>, b: Seq<char>, i: int) -> bool {
    0 <= i <= a.len() && i <= b.len() && (forall|j: int| 0 <= j < i ==> a[j] == b[j]) && ((i
        == a.len() && i < b.len()) || (i < a.len() && i < b.len() && a[i] < b[i]))
}

/// Strict lexicographic order on character sequences: `a` comes before `b`
/// iff they agree on a common prefix and then either `a` ends or `a` has the
/// smaller character.
pub open spec fn lex_lt(a: Seq<char>, b: Seq<char>) -> bool {
    exists|i: int| #[trigger] lex_lt_at(a, b, i)
}

/// The first field of `fields` named `name`, if any.
pub open spec fn obj_lookup(fields: Seq<(Seq<char>, ValueModel)>, name: Seq<char>) -> Option<
    ValueModel,
>
    decreases fields.len(),
{
    if fields.len() == 0 {
        None
    } else if fields[0].0 == name {
        Some(fields[0].1)
    } else {
        obj_lookup(fields.skip(1), name)
    }
}

/// No sequence of characters comes before itself.
pub proof fn lemma_lex_lt_irrefl(a: Seq<char>)
    ensures
        !lex_lt(a, a),
{
    if lex_lt(a, a) {
        let i = choose|i: int| lex_lt_at(a, a, i);
    }
}

/// Looking a name up in a concatenation of field lists searches the first
/// list and falls back to the second.
pub proof fn lemma_obj_lookup_append(
    u: Seq<(Seq<char>, ValueModel)>,
    v: Seq<(Seq<char>, ValueModel)>,
    q: Seq<char>,
)
    ensures
        obj_lookup(u, q) is Some ==> obj_lookup(u + v, q) == obj_lookup(u, q),
        obj_lookup(u, q) is None ==> obj_lookup(u + v, q) == obj_lookup(v, q),
    decreases u.len(),
{
    if u.len() == 0 {
        assert(u + v =~= v);
    } else {
        lemma_obj_lookup_append(u.skip(1), v, q);
        assert((u + v).skip(1) =~= u.skip(1) + v);
        assert((u + v)[0] == u[0]);
    }
}

/// The lexicographic order is total: of two sequences, one comes first or
/// they are equal.
pub proof fn lemma_lex_total(a: Seq<char>, b: Seq<char>)
    ensures
        lex_lt(a, b) || a == b || lex_lt(b, a),
    decreases a.len(),
{
    if a.len() == 0 {
        if b.len() == 0 {
            assert(a =~= b);
        } else {
            assert(lex_lt_at(a, b, 0));
        }
    } else if b.len() == 0 {
        assert(lex_lt_at(b, a, 0));
    } else if a[0] < b[0] {
        assert(lex_lt_at(a, b, 0));
    } else if b[0] < a[0] {
        assert(lex_lt_at(b, a, 0));
    } else {
        let a1 = a.skip(1);
        let b1 = b.skip(1);
        lemma_lex_total(a1, b1);
        if lex_lt(a1, b1) {
            let i = choose|i: int| lex_lt_at(a1, b1, i);
            assert(lex_lt_at(a, b, i + 1)) by {
                assert(forall|j: int| 0 <= j < i ==> a1[j] == b1[j]);
                assert(forall|j: int| 1 <= j < i + 1 ==> a[j] == a1[j - 1] && b[j] == b1[j - 1]);
            }
        } else if lex_lt(b1, a1) {
            let i = choose|i: int| lex_lt_at(b1, a1, i);
            assert(lex_lt_at(b, a, i + 1)) by {
                assert(forall|j: int| 0 <= j < i ==> b1[j] == a1[j]);
                assert(forall|j: int| 1 <= j < i + 1 ==> b[j] == b1[j - 1] && a[j] == a1[j - 1]);
            }
        } else {
            assert(a =~= b) by {
                assert(forall|j: int| 1 <= j < a.len() ==> a[j] == a1[j - 1] && b[j] == b1[j - 1]);
            }
        }
    }
}

/// The lexicographic order is transitive.
pub proof fn lemma_lex_trans(a: Seq<char>, b: Seq<char>, c: Seq<char>)
    requires
        lex_lt(a, b),
        lex_lt(b, c),
    ensures
        lex_lt(a, c),
{
    let i = choose|i: int| lex_lt_at(a, b, i);
    let j = choose|j: int| lex_lt_at(b, c, j);
    if i <= j {
        assert(lex_lt_at(a, c, i));
    } else {
        assert(lex_lt_at(a, c, j));
    }
}

/// In a sorted field list every later name is strictly greater.
pub proof fn lemma_sorted_lt(fields: Seq<(Seq<char>, ValueModel)>, i: int, j: int)
    requires
        fields_sorted(fields),
        0 <= i < j < fields.len(),
    ensures
        lex_lt(fields[i].0, fields[j].0),
    decreases j - i,
{
    if j == i + 1 {
        assert(lex_lt(fields[i].0, fields[i + 1].0));
    } else {
        lemma_sorted_lt(fields, i, j - 1);
        assert(lex_lt(fields[j - 1].0, fields[j].0));
        lemma_lex_trans(fields[i].0, fields[j - 1].0, fields[j].0);
    }
}

/// Sorted field lists are canonical: two of them that encode the same
/// mapping (every lookup agrees) are identical, field for field. Together
/// with the trivial converse, structural equality of well-formed objects is
/// exactly equality of the mappings they encode.
pub proof fn lemma_sorted_fields_canonical(
    f1: Seq<(Seq<char>, ValueModel)>,
    f2: Seq<(Seq<char>, ValueModel)>,
)
    requires
        fields_sorted(f1),
        fields_sorted(f2),
        forall|q: Seq<char>| #[trigger] obj_lookup(f1, q) == obj_lookup(f2, q),
    ensures
        f1 == f2,
    decreases f1.len(),
{
    if f1.len() == 0 && f2.len() == 0 {
        assert(f1 =~= f2);
    } else if f1.len() == 0 {
        assert(obj_lookup(f2, f2[0].0) is Some);
        assert(obj_lookup(f1, f2[0].0) is None);
    } else if f2.len() == 0 {
        assert(obj_lookup(f1, f1[0].0) is Some);
        assert(obj_lookup(f2, f1[0].0) is None);
    } else {
        let h1 = f1[0].0;
        let h2 = f2[0].0;
        lemma_lex_total(h1, h2);
        if lex_lt(h1, h2) {
            assert forall|k: int| 0 <= k < f2.len() implies (#[trigger] f2[k]).0 != h1 by {
                if k > 0 {
                    lemma_sorted_lt(f2, 0, k);
                    lemma_lex_trans(h1, h2, f2[k].0);
                }
                if f2[k].0 == h1 {
                    lemma_lex_lt_irrefl(h1);
                }
            }
            lemma_obj_lookup_none(f2, h1);
            assert(obj_lookup(f1, h1) is Some);
        } else if lex_lt(h2, h1) {
            assert forall|k: int| 0 <= k < f1.len() implies (#[trigger] f1[k]).0 != h2 by {
                if k > 0 {
                    lemma_sorted_lt(f1, 0, k);
                    lemma_lex_trans(h2, h1, f1[k].0);
                }
                if f1[k].0 == h2 {
                    lemma_lex_lt_irrefl(h2);
                }
            }
            lemma_obj_lookup_none(f1, h2);
            assert(obj_lookup(f2, h2) is Some);
        } else {
            assert(obj_lookup(f1, h1) == Some(f1[0].1));
            assert(obj_lookup(f2, h1) == Some(f2[0].1));
            let t1 = f1.skip(1);
            let t2 = f2.skip(1);
            assert forall|x: int| 0 <= x < t1.len() - 1 implies lex_lt(
                (#[trigger] t1[x]).0,
                t1[x + 1].0,
            ) by {
                assert(t1[x] == f1[x + 1]);
                assert(t1[x + 1] == f1[x + 2]);
                assert(lex_lt(f1[x + 1].0, f1[x + 2].0));
            }
            assert forall|x: int| 0 <= x < t2.len() - 1 implies lex_lt(
                (#[trigger] t2[x]).0,
                t2[x + 1].0,
            ) by {
                assert(t2[x] == f2[x + 1]);
                assert(t2[x + 1] == f2[x + 2]);
                assert(lex_lt(f2[x + 1].0, f2[x + 2].0));
            }
            assert forall|q: Seq<char>| #[trigger] obj_lookup(t1, q) == obj_lookup(t2, q) by {
                if q == h1 {
                    assert forall|k: int| 0 <= k < t1.len() implies (#[trigger] t1[k]).0 != q by {
                        assert(t1[k] == f1[k + 1]);
                        lemma_sorted_lt(f1, 0, k + 1);
                        if f1[k + 1].0 == q {
                            lemma_lex_lt_irrefl(q);
                        }
                    }
                    assert forall|k: int| 0 <= k < t2.len() implies (#[trigger] t2[k]).0 != q by {
                        assert(t2[k] == f2[k + 1]);
                        lemma_sorted_lt(f2, 0, k + 1);
                        if f2[k + 1].0 == q {
                            lemma_lex_lt_irrefl(q);
                        }
                    }
                    lemma_obj_lookup_none(t1, q);
                    lemma_obj_lookup_none(t2, q);
                } else {
                    assert(obj_lookup(f1, q) == obj_lookup(t1, q));
                    assert(obj_lookup(f2, q) == obj_lookup(t2, q));
                    assert(obj_lookup(f1, q) == obj_lookup(f2, q));
                }
            }
            lemma_sorted_fields_canonical(t1, t2);
            assert(f1[0] == f2[0]);
            assert(f1 =~= f2) by {
                assert(forall|x: int| 1 <= x < f1.len() ==> f1[x] == t1[x - 1] && f2[x] == t2[x - 1]);
            }
        }
    }
}

/// Structural equality of well-formed (sorted) field lists is equality of
/// the mappings they encode: the lists are identical exactly when every
/// lookup agrees.
pub proof fn lemma_object_equality_is_map_equality(
    f1: Seq<(Seq<char>, ValueModel)>,
    f2: Seq<(Seq<char>, ValueModel)>,
)
    requires
        fields_sorted(f1),
        fields_sorted(f2),
    ensures
        (f1 == f2) <==> (forall|q: Seq<char>| #[trigger] obj_lookup(f1, q) == obj_lookup(f2, q)),
{
    if forall|q: Seq<char>| #[trigger] obj_lookup(f1, q) == obj_lookup(f2, q) {
        lemma_sorted_fields_canonical(f1, f2);
    }
}

/// A lookup among fields whose names all differ from the name sought finds
/// nothing.
pub proof fn lemma_obj_lookup_none(s: Seq<(Seq<char>, ValueModel)>, q: Seq<char>)
    requires
        forall|i: int| 0 <= i < s.len() ==> (#[trigger] s[i]).0 != q,
    ensures
        obj_lookup(s, q) is None,
    decreases s.len(),
{
    if s.len() > 0 {
        assert forall|i: int| 0 <= i < s.skip(1).len() implies (#[trigger] s.skip(1)[i]).0
            != q by {
            assert(s.skip(1)[i] == s[i + 1]);
        }
        lemma_obj_lookup_none(s.skip(1), q);
    }
}

/// Replacing the value of the field at a position keeps every other lookup,
/// and a lookup of that field's name now finds the new value, provided the
/// earlier fields carry smaller names.
pub proof fn lemma_replace_lookup(
    old_view: Seq<(Seq<char>, ValueModel)>,
    new_view: Seq<(Seq<char>, ValueModel)>,
    p: int,
    name: Seq<char>,
)
    requires
        0 <= p < old_view.len(),
        new_view.len() == old_view.len(),
        forall|j: int| 0 <= j < old_view.len() && j != p ==> new_view[j] == old_view[j],
        new_view[p].0 == name,
        old_view[p].0 == name,
        forall|j: int| 0 <= j < p ==> lex_lt((#[trigger] old_view[j]).0, name),
    ensures
        obj_lookup(new_view, name) == Some(new_view[p].1),
        forall|q: Seq<char>| q != name ==> obj_lookup(new_view, q) == obj_lookup(old_view, q),
        fields_sorted(old_view) ==> fields_sorted(new_view),
{
    let pre_new = new_view.take(p);
    let post_new = new_view.skip(p);
    let pre_old = old_view.take(p);
    let post_old = old_view.skip(p);
    assert(new_view =~= pre_new + post_new);
    assert(old_view =~= pre_old + post_old);
    assert(pre_new =~= pre_old);
    assert forall|j: int| 0 <= j < pre_old.len() implies lex_lt((#[trigger] pre_old[j]).0, name) by {
        assert(pre_old[j] == old_view[j]);
    }
    assert forall|j: int| 0 <= j < pre_old.len() implies (#[trigger] pre_old[j]).0 != name by {
        if pre_old[j].0 == name {
            lemma_lex_lt_irrefl(name);
        }
    }
    lemma_obj_lookup_none(pre_old, name);
    lemma_obj_lookup_append(pre_old, post_new, name);
    assert(post_new[0] == new_view[p]);
    assert(obj_lookup(post_new, name) == Some(new_view[p].1));
    assert forall|q: Seq<char>| q != name implies obj_lookup(new_view, q) == obj_lookup(
        old_view,
        q,
    ) by {
        lemma_obj_lookup_append(pre_old, post_new, q);
        lemma_obj_lookup_append(pre_old, post_old, q);
        if obj_lookup(pre_old, q) is None {
            assert(post_new[0].0 != q);
            assert(post_old[0].0 != q);
            assert(post_new.skip(1) =~= post_old.skip(1));
        }
    }
    if fields_sorted(old_view) {
        assert forall|i: int|
            #![trigger new_view[i]]
            0 <= i < new_view.len() - 1 implies lex_lt(new_view[i].0, new_view[i + 1].0) by {
            assert(old_view[i].0 == new_view[i].0);
            assert(old_view[i + 1].0 == new_view[i + 1].0);
            assert(lex_lt(old_view[i].0, old_view[i + 1].0));
        }
        assert(fields_sorted(new_view));
    }
}

/// Adding a field at its place in the name order keeps every other lookup,
/// makes its name resolve to the new value, and keeps the fields sorted.
pub proof fn lemma_inserted_lookup(
    old_view: Seq<(Seq<char>, ValueModel)>,
    new_view: Seq<(Seq<char>, ValueModel)>,
    p: int,
    name: Seq<char>,
)
    requires
        0 <= p <= old_view.len(),
        new_view.len() == old_view.len() + 1,
        forall|j: int| 0 <= j < p ==> #[trigger] new_view[j] == old_view[j],
        forall|j: int| p < j < new_view.len() ==> #[trigger] new_view[j] == old_view[j - 1],
        new_view[p].0 == name,
        forall|j: int| 0 <= j < p ==> lex_lt((#[trigger] old_view[j]).0, name),
        p < old_view.len() ==> lex_lt(name, old_view[p].0),
    ensures
        obj_lookup(new_view, name) == Some(new_view[p].1),
        forall|q: Seq<char>| q != name ==> obj_lookup(new_view, q) == obj_lookup(old_view, q),
        fields_sorted(old_view) ==> fields_sorted(new_view),
{
    let pre = new_view.take(p);
    let post_new = new_view.skip(p);
    let post_old = old_view.skip(p);
    assert(new_view =~= pre + post_new);
    assert(old_view =~= pre + post_old);
    assert forall|j: int| 0 <= j < pre.len() implies lex_lt((#[trigger] pre[j]).0, name) by {
        assert(pre[j] == old_view[j]);
    }
    assert forall|j: int| 0 <= j < pre.len() implies (#[trigger] pre[j]).0 != name by {
        if pre[j].0 == name {
            lemma_lex_lt_irrefl(name);
        }
    }
    lemma_obj_lookup_none(pre, name);
    lemma_obj_lookup_append(pre, post_new, name);
    assert(post_new[0] == new_view[p]);
    assert(obj_lookup(post_new, name) == Some(new_view[p].1));
    assert forall|q: Seq<char>| q != name implies obj_lookup(new_view, q) == obj_lookup(
        old_view,
        q,
    ) by {
        lemma_obj_lookup_append(pre, post_new, q);
        lemma_obj_lookup_append(pre, post_old, q);
        if obj_lookup(pre, q) is None {
            assert(post_new[0].0 != q);
            assert(post_new.skip(1) =~= post_old);
        }
    }
    if fields_sorted(old_view) {
        assert forall|i: int|
            #![trigger new_view[i]]
            0 <= i < new_view.len() - 1 implies lex_lt(new_view[i].0, new_view[i + 1].0) by {
            if i + 1 < p {
                assert(new_view[i] == old_view[i]);
                assert(new_view[i + 1] == old_view[i + 1]);
                assert(lex_lt(old_view[i].0, old_view[i + 1].0));
            } else if i + 1 == p {
                assert(new_view[i] == old_view[i]);
            } else if i == p {
                assert(new_view[i + 1] == old_view[i]);
            } else {
                assert(new_view[i] == old_view[i - 1]);
                assert(new_view[i + 1] == old_view[i]);
                assert(lex_lt(old_view[i - 1].0, old_view[i].0));
            }
        }
        assert(fields_sorted(new_view));
    }
}

/// Field names strictly increase, so every name occurs at most once and the
/// sequence is the canonical form of the mapping it encodes.
pub open spec fn fields_sorted(fields: Seq<(Seq<char>, ValueModel)>) -> bool {
    forall|i: int|
        #![trigger fields[i]]
        0 <= i < fields.len() - 1 ==> lex_lt(fields[i].0, fields[i + 1].0)
}

/// A value is well formed when every object in it keeps its fields sorted.
pub open spec fn value_wf(v: ValueModel) -> bool
    decreases v,
{
    match v {
        ValueModel::Obj(fields) => fields_sorted(fields) && (forall|i: int|
            0 <= i < fields.len() ==> value_wf(#[trigger] fields[i].1)),
        _ => true,
    }
}

/// The single name an expression refers to, if any: `Equals` and
/// `GetProperty` reference their target, the other variants reference
/// nothing. This is why the reference structure is a chain, never a tree.
pub open spec fn dependency_of(e: ExprModel) -> Option<Seq<char>> {
    match e {
        ExprModel::Equals { target, .. } => Some(target),
        ExprModel::GetProperty { target, .. } => Some(target),
        _ => None,
    }
}

/// The object encoding of a resolved response: its four parts keyed by
/// `body`, `status`, `status_text` and `url` (in sorted order).
pub open spec fn response_value(r: RespModel) -> ValueModel {
    ValueModel::Obj(
        seq![
            ("body"@, r.body),
            ("status"@, ValueModel::Int(r.status)),
            ("status_text"@, ValueModel::Str(r.status_text)),
            ("url"@, ValueModel::Str(r.url)),
        ],
    )
}

/// The object encoding of a response is well formed (its four field names
/// are sorted) whenever the response's body is.
pub proof fn lemma_response_value_wf(r: RespModel)
    requires
        value_wf(r.body),
    ensures
        value_wf(response_value(r)),
{
    reveal_strlit("body");
    reveal_strlit("status");
    reveal_strlit("status_text");
    reveal_strlit("url");
    assert(lex_lt_at("body"@, "status"@, 0));
    assert(lex_lt_at("status"@, "status_text"@, 6));
    assert(lex_lt_at("status_text"@, "url"@, 0));
    let fields = response_value(r)->Obj_0;
    assert(fields_sorted(fields)) by {
        assert(lex_lt(fields[0].0, fields[1].0));
        assert(lex_lt(fields[1].0, fields[2].0));
        assert(lex_lt(fields[2].0, fields[3].0));
    }
    assert(forall|i: int| 0 <= i < fields.len() ==> value_wf(#[trigger] fields[i].1));
}

/// The name-to-expression index built from a node list: when several nodes
/// share a name, the first one wins and the later ones are invisible to
/// lookups.
pub open spec fn index_map(nodes: Seq<NodeModel>) -> Map<Seq<char>, ExprModel>
    decreases nodes.len(),
{
    if nodes.len() == 0 {
        Map::empty()
    } else {
        let m = index_map(nodes.drop_last());
        if m.dom().contains(nodes.last().name) {
            m
        } else {
            m.insert(nodes.last().name, nodes.last().expr)
        }
    }
}

/// Whether some node of the list carries this name.
pub open spec fn has_node_named(nodes: Seq<NodeModel>, name: Seq<char>) -> bool {
    exists|i: int| 0 <= i < nodes.len() && (#[trigger] nodes[i]).name == name
}

/// The index of a node list is finite and holds exactly the names that occur
/// in the list.
pub proof fn lemma_index_map_dom(nodes: Seq<NodeModel>)
    ensures
        index_map(nodes).dom().finite(),
        index_map(nodes).dom().len() <= nodes.len(),
        forall|n: Seq<char>| index_map(nodes).dom().contains(n) <==> has_node_named(nodes, n),
    decreases nodes.len(),
{
    if nodes.len() == 0 {
    } else {
        lemma_index_map_dom(nodes.drop_last());
        let prefix = nodes.drop_last();
        assert forall|n: Seq<char>| index_map(nodes).dom().contains(n) implies has_node_named(
            nodes,
            n,
        ) by {
            if index_map(prefix).dom().contains(n) {
                assert(has_node_named(prefix, n));
                let i = choose|i: int| 0 <= i < prefix.len() && (#[trigger] prefix[i]).name == n;
                assert(prefix[i] == nodes[i]);
                assert(nodes[i].name == n);
            } else {
                assert(nodes[nodes.len() - 1].name == n);
            }
        }
        assert forall|n: Seq<char>| has_node_named(nodes, n) implies index_map(
            nodes,
        ).dom().contains(n) by {
            let i = choose|i: int| 0 <= i < nodes.len() && (#[trigger] nodes[i]).name == n;
            if i < prefix.len() {
                assert(prefix[i] == nodes[i]);
                assert(has_node_named(prefix, n));
            }
        }
    }
}

} // verus!
