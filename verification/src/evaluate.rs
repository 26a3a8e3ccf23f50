//! The evaluator: the named-expression index, the cycle detector and the
//! recursive, memoizing evaluation of node formulas.
//!
//! The semantics is stated by the spec functions [`cycle_walk`] and
//! [`eval_in`]; the executable index, detector and evaluator are proved to
//! return exactly what those functions describe.

use crate::model::ExprModel;
use crate::model::NodeModel;
use crate::model::ValueModel;
use crate::model::dependency_of;
use crate::model::has_node_named;
use crate::model::index_map;
use crate::model::lemma_index_map_dom;
use crate::model::obj_lookup;
use crate::model::response_value;
use crate::sequence::Sequence;
use crate::text::Text;
use crate::types::EvaluationError;
use crate::types::Expression;
use crate::types::Node;
use crate::types::Value;
use vstd::prelude::*;
use vstd::set_lib::lemma_len_subset;
use vstd::string::StringExecFns;

verus! {

// ------------------------------------------------------------------
// Error messages
// ------------------------------------------------------------------
/// The message reported when a referenced name has no node.
pub open spec fn no_input_message(target: Seq<char>) -> Seq<char> {
    "No \""@ + target + "\" input found"@
}

/// The names of a chain, joined with arrows.
pub open spec fn joined_names(chain: Seq<Seq<char>>) -> Seq<char>
    decreases chain.len(),
{
    if chain.len() == 0 {
        Seq::empty()
    } else if chain.len() == 1 {
        chain[0]
    } else {
        joined_names(chain.drop_last()) + " → "@ + chain.last()
    }
}

/// The message reporting a reference cycle: the visited names, joined.
pub open spec fn cycle_message(chain: Seq<Seq<char>>) -> Seq<char> {
    "Cycle detected: "@ + joined_names(chain)
}

/// The message reported when a field is read on a value that is not an
/// object. Reading a field of a non-object is an explicit error here, not a
/// silent indeterminate: the failure belongs to the reading node itself.
pub open spec fn not_object_message(target: Seq<char>) -> Seq<char> {
    "Unresolved field access: \""@ + target + "\" is not an object"@
}

/// The message reported when the object has no field of the requested name;
/// an explicit error, like [`not_object_message`].
pub open spec fn missing_field_message(field: Seq<char>) -> Seq<char> {
    "Unresolved field access: no field \""@ + field + "\""@
}

// ------------------------------------------------------------------
// The cycle walk
// ------------------------------------------------------------------
/// The state of a cycle walk: `seen` is the chain of names visited so far,
/// starting at `start` and ending on `cur`, each linked to the next by its
/// expression's single reference, and none visited twice.
pub open spec fn walk_state_ok(
    m: Map<Seq<char>, ExprModel>,
    start: Seq<char>,
    seen: Seq<Seq<char>>,
    cur: Seq<char>,
) -> bool {
    &&& seen.len() >= 1
    &&& seen[0] == start
    &&& seen.last() == cur
    &&& seen.no_duplicates()
    &&& forall|j: int|
        0 <= j < seen.len() - 1 ==> m.dom().contains(#[trigger] seen[j]) && dependency_of(
            m[seen[j]],
        ) == Some(seen[j + 1])
}

/// The cycle walk: follows each expression's single reference from `cur` on.
/// It stops on a name without a node or on an expression without a
/// reference (no cycle), reports the full chain as soon as the walk returns
/// to `start`, and gives up when it returns to any other name already
/// visited (the chain runs into a loop that does not pass through `start`,
/// so no cycle is reported for `start` itself).
pub open spec fn cycle_walk(
    m: Map<Seq<char>, ExprModel>,
    start: Seq<char>,
    seen: Seq<Seq<char>>,
    cur: Seq<char>,
) -> Option<Seq<Seq<char>>>
    decreases m.dom().len() + 1 - seen.len()
        when m.dom().finite() && walk_state_ok(m, start, seen, cur)
        via cycle_walk_decreases
{
    if !m.dom().contains(cur) {
        None
    } else {
        match dependency_of(m[cur]) {
            None => None,
            Some(next) => if next == start {
                Some(seen.push(next))
            } else if seen.contains(next) {
                None
            } else {
                cycle_walk(m, start, seen.push(next), next)
            },
        }
    }
}

/// A walk whose names are distinct and all indexed cannot be longer than
/// the index.
proof fn lemma_walk_seen_bound(
    m: Map<Seq<char>, ExprModel>,
    start: Seq<char>,
    seen: Seq<Seq<char>>,
    cur: Seq<char>,
)
    requires
        m.dom().finite(),
        walk_state_ok(m, start, seen, cur),
        m.dom().contains(cur),
    ensures
        seen.len() <= m.dom().len(),
{
    assert forall|x: Seq<char>| seen.to_set().contains(x) implies m.dom().contains(x) by {
        assert(seen.contains(x));
        let j = choose|j: int| 0 <= j < seen.len() && seen[j] == x;
        if j == seen.len() - 1 {
            assert(x == cur);
        }
    }
    seen.unique_seq_to_set();
    lemma_len_subset(seen.to_set(), m.dom());
}

#[via_fn]
proof fn cycle_walk_decreases(
    m: Map<Seq<char>, ExprModel>,
    start: Seq<char>,
    seen: Seq<Seq<char>>,
    cur: Seq<char>,
) {
    if m.dom().finite() && walk_state_ok(m, start, seen, cur) && m.dom().contains(cur) {
        lemma_walk_seen_bound(m, start, seen, cur);
    }
}

/// Whether following the references from `name` leads back to `name`.
pub open spec fn has_cycle(m: Map<Seq<char>, ExprModel>, name: Seq<char>) -> bool {
    cycle_walk(m, name, seq![name], name) is Some
}

/// The chain of a detected cycle: the visited names, starting and ending
/// with the origin.
pub open spec fn cycle_chain_of(m: Map<Seq<char>, ExprModel>, name: Seq<char>) -> Seq<Seq<char>> {
    cycle_walk(m, name, seq![name], name).unwrap()
}

/// A witness that `start` lies on a cycle: a chain of linked names from
/// `start` back to `start`, visiting no name twice on the way.
pub open spec fn is_cycle_chain(
    m: Map<Seq<char>, ExprModel>,
    start: Seq<char>,
    chain: Seq<Seq<char>>,
) -> bool {
    &&& chain.len() >= 2
    &&& chain[0] == start
    &&& chain.last() == start
    &&& chain.drop_last().no_duplicates()
    &&& forall|j: int|
        0 <= j < chain.len() - 1 ==> m.dom().contains(#[trigger] chain[j]) && dependency_of(
            m[chain[j]],
        ) == Some(chain[j + 1])
}

/// From position `k` of a cycle chain, the walk carries on to the end of the
/// chain and reports the cycle.
proof fn lemma_walk_reaches(
    m: Map<Seq<char>, ExprModel>,
    start: Seq<char>,
    chain: Seq<Seq<char>>,
    k: int,
)
    requires
        m.dom().finite(),
        is_cycle_chain(m, start, chain),
        0 <= k < chain.len() - 1,
    ensures
        cycle_walk(m, start, chain.take(k + 1), chain[k]) is Some,
    decreases chain.len() - k,
{
    let seen = chain.take(k + 1);
    assert(walk_state_ok(m, start, seen, chain[k])) by {
        assert forall|i: int, j: int| 0 <= i < j < seen.len() implies seen[i] != seen[j] by {
            assert(chain.drop_last()[i] == chain[i]);
            assert(chain.drop_last()[j] == chain[j]);
        }
    }
    let next = chain[k + 1];
    if next == start {
        assert(cycle_walk(m, start, seen, chain[k]) == Some(seen.push(next)));
    } else {
        assert(k + 1 < chain.len() - 1) by {
            if k + 1 == chain.len() - 1 {
                assert(chain.last() == start);
            }
        }
        assert(!seen.contains(next)) by {
            if seen.contains(next) {
                let j = choose|j: int| 0 <= j < seen.len() && seen[j] == next;
                assert(chain.drop_last()[j] == chain[j]);
                assert(chain.drop_last()[k + 1] == chain[k + 1]);
            }
        }
        assert(seen.push(next) =~= chain.take(k + 2));
        lemma_walk_reaches(m, start, chain, k + 1);
    }
}

/// A walk that reports a chain reports a true cycle: the chain starts and
/// ends on the origin, follows each expression's single reference, and
/// visits no name twice on the way.
proof fn lemma_walk_sound(
    m: Map<Seq<char>, ExprModel>,
    start: Seq<char>,
    seen: Seq<Seq<char>>,
    cur: Seq<char>,
)
    requires
        m.dom().finite(),
        walk_state_ok(m, start, seen, cur),
        cycle_walk(m, start, seen, cur) is Some,
    ensures
        is_cycle_chain(m, start, cycle_walk(m, start, seen, cur).unwrap()),
    decreases m.dom().len() + 1 - seen.len(),
{
    lemma_walk_seen_bound(m, start, seen, cur);
    let next = dependency_of(m[cur]).unwrap();
    if next == start {
        let c = seen.push(next);
        assert(c.drop_last() =~= seen);
        assert forall|j: int| 0 <= j < c.len() - 1 implies m.dom().contains(#[trigger] c[j])
            && dependency_of(m[c[j]]) == Some(c[j + 1]) by {
            assert(c[j] == seen[j]);
            if j < seen.len() - 1 {
                assert(c[j + 1] == seen[j + 1]);
            } else {
                assert(c[j] == cur);
            }
        }
    } else {
        let grown = seen.push(next);
        assert(walk_state_ok(m, start, grown, next)) by {
            assert forall|j: int| 0 <= j < grown.len() - 1 implies m.dom().contains(
                #[trigger] grown[j],
            ) && dependency_of(m[grown[j]]) == Some(grown[j + 1]) by {
                assert(grown[j] == seen[j]);
                if j < seen.len() - 1 {
                    assert(grown[j + 1] == seen[j + 1]);
                } else {
                    assert(grown[j] == cur);
                }
            }
        }
        lemma_walk_sound(m, start, grown, next);
    }
}

/// The chain a detected cycle reports is a true cycle chain.
pub proof fn lemma_cycle_chain_sound(m: Map<Seq<char>, ExprModel>, name: Seq<char>)
    requires
        m.dom().finite(),
        has_cycle(m, name),
    ensures
        is_cycle_chain(m, name, cycle_chain_of(m, name)),
{
    lemma_walk_sound(m, name, seq![name], name);
}

/// Where a cycle chain exists, the walk finds it.
pub proof fn lemma_walk_finds_cycle(
    m: Map<Seq<char>, ExprModel>,
    start: Seq<char>,
    chain: Seq<Seq<char>>,
)
    requires
        m.dom().finite(),
        is_cycle_chain(m, start, chain),
    ensures
        has_cycle(m, start),
{
    lemma_walk_reaches(m, start, chain, 0);
    assert(chain.take(1) =~= seq![start]);
}

/// The detector is sound and complete: it reports a cycle for a name
/// exactly when a chain of references leads from that name back to itself.
pub proof fn lemma_cycle_iff_chain(m: Map<Seq<char>, ExprModel>, name: Seq<char>)
    requires
        m.dom().finite(),
    ensures
        has_cycle(m, name) <==> exists|c: Seq<Seq<char>>| is_cycle_chain(m, name, c),
{
    if has_cycle(m, name) {
        lemma_cycle_chain_sound(m, name);
        assert(is_cycle_chain(m, name, cycle_chain_of(m, name)));
    }
    if exists|c: Seq<Seq<char>>| is_cycle_chain(m, name, c) {
        let c = choose|c: Seq<Seq<char>>| is_cycle_chain(m, name, c);
        lemma_walk_finds_cycle(m, name, c);
    }
}

// ------------------------------------------------------------------
// The evaluation semantics
// ------------------------------------------------------------------
/// Whether `expr` is exactly what the index registers for `name`. Recursive
/// evaluation always works on registered expressions; only the outermost
/// call may evaluate an arbitrary one.
pub open spec fn aligned(m: Map<Seq<char>, ExprModel>, name: Seq<char>, expr: ExprModel) -> bool {
    m.dom().contains(name) && m[name] == expr
}

/// The rank of a call in the termination order: an unaligned (outermost)
/// call may recurse into one aligned call, aligned calls only into each
/// other.
pub open spec fn align_rank(m: Map<Seq<char>, ExprModel>, name: Seq<char>, expr: ExprModel) -> int {
    if aligned(m, name, expr) {
        0
    } else {
        1
    }
}

/// The chain of registered names whose evaluation is in progress: each is
/// indexed, known to be cycle free, and linked to the next by its
/// expression's reference; the last links to the current call.
pub open spec fn valid_eval_path(
    m: Map<Seq<char>, ExprModel>,
    path: Seq<Seq<char>>,
    name: Seq<char>,
    expr: ExprModel,
) -> bool {
    &&& path.no_duplicates()
    &&& forall|j: int|
        0 <= j < path.len() ==> m.dom().contains(#[trigger] path[j]) && !has_cycle(m, path[j])
    &&& forall|j: int|
        0 <= j < path.len() - 1 ==> dependency_of(m[#[trigger] path[j]]) == Some(path[j + 1])
    &&& path.len() > 0 ==> dependency_of(m[path.last()]) == Some(name) && aligned(m, name, expr)
}

/// The path of the recursive evaluation a call makes for its target: the
/// current name joins the path when the call is aligned; an unaligned call
/// starts a fresh path.
pub open spec fn next_path(
    m: Map<Seq<char>, ExprModel>,
    path: Seq<Seq<char>>,
    name: Seq<char>,
    expr: ExprModel,
) -> Seq<Seq<char>> {
    if aligned(m, name, expr) {
        path.push(name)
    } else {
        Seq::empty()
    }
}

/// What evaluating `expr` as node `name` yields, with `path` the chain of
/// evaluations in progress:
///
/// - a name on a reference cycle fails with the cycle message, whatever its
///   expression;
/// - a string constant yields itself;
/// - a resolved request yields its error verbatim, or the object encoding of
///   its response; a pending one yields the indeterminate value;
/// - `Equals` and `GetProperty` fail when their target has no node, and
///   otherwise evaluate the target's registered expression: a failure there
///   is downgraded to the indeterminate value ("not known yet" rather than
///   "broken"), a success is compared structurally (`Equals`) or searched
///   for the field (`GetProperty`), where reading a missing field or a
///   non-object is an explicit error.
pub open spec fn eval_in(
    m: Map<Seq<char>, ExprModel>,
    name: Seq<char>,
    expr: ExprModel,
    path: Seq<Seq<char>>,
) -> Result<ValueModel, Seq<char>>
    decreases align_rank(m, name, expr), m.dom().len() + 1 - path.len()
        when m.dom().finite() && valid_eval_path(m, path, name, expr)
        via eval_in_decreases
{
    if has_cycle(m, name) {
        Err(cycle_message(cycle_chain_of(m, name)))
    } else {
        match expr {
            ExprModel::StringConstant(s) => Ok(ValueModel::Str(s)),
            ExprModel::Request { response, error, .. } => match error {
                Some(e) => Err(e),
                None => match response {
                    Some(r) => Ok(response_value(r)),
                    None => Ok(ValueModel::Indet),
                },
            },
            ExprModel::Equals { target, value } => if !m.dom().contains(target) {
                Err(no_input_message(target))
            } else {
                match eval_in(m, target, m[target], next_path(m, path, name, expr)) {
                    Ok(tv) => Ok(ValueModel::Bool(tv == value)),
                    Err(_) => Ok(ValueModel::Indet),
                }
            },
            ExprModel::GetProperty { target, field } => if !m.dom().contains(target) {
                Err(no_input_message(target))
            } else {
                match eval_in(m, target, m[target], next_path(m, path, name, expr)) {
                    Ok(ValueModel::Obj(fields)) => match obj_lookup(fields, field) {
                        Some(v) => Ok(v),
                        None => Err(missing_field_message(field)),
                    },
                    Ok(_) => Err(not_object_message(target)),
                    Err(_) => Ok(ValueModel::Indet),
                }
            },
        }
    }
}

/// An aligned, cycle-free call can extend its path by its own name: the
/// name is new to the path (else the path would close a cycle), the grown
/// path still fits the index, and it is a valid path for evaluating the
/// call's target.
pub proof fn lemma_path_step(
    m: Map<Seq<char>, ExprModel>,
    path: Seq<Seq<char>>,
    name: Seq<char>,
    expr: ExprModel,
)
    requires
        m.dom().finite(),
        valid_eval_path(m, path, name, expr),
        !has_cycle(m, name),
        aligned(m, name, expr),
    ensures
        !path.contains(name),
        path.push(name).len() <= m.dom().len(),
        forall|t: Seq<char>|
            m.dom().contains(t) && dependency_of(expr) == Some(t) ==> valid_eval_path(
                m,
                path.push(name),
                t,
                m[t],
            ),
{
    if path.contains(name) {
        let j = choose|j: int| 0 <= j < path.len() && path[j] == name;
        let chain = path.subrange(j, path.len() as int).push(name);
        assert(is_cycle_chain(m, path[j], chain)) by {
            assert(chain.drop_last() =~= path.subrange(j, path.len() as int));
            assert forall|a: int, b: int| 0 <= a < b < chain.drop_last().len() implies chain
                .drop_last()[a] != chain.drop_last()[b] by {
                assert(chain.drop_last()[a] == path[j + a]);
                assert(chain.drop_last()[b] == path[j + b]);
            }
            assert forall|i: int| 0 <= i < chain.len() - 1 implies m.dom().contains(
                #[trigger] chain[i],
            ) && dependency_of(m[chain[i]]) == Some(chain[i + 1]) by {
                assert(chain[i] == path[j + i]);
                if i < chain.len() - 2 {
                    assert(chain[i + 1] == path[j + i + 1]);
                } else {
                    assert(j + i == path.len() - 1);
                    assert(chain[i + 1] == name);
                }
            }
        }
        lemma_walk_finds_cycle(m, path[j], chain);
        assert(false);
    }
    let grown = path.push(name);
    assert forall|x: Seq<char>| grown.to_set().contains(x) implies m.dom().contains(x) by {
        assert(grown.contains(x));
        let j = choose|j: int| 0 <= j < grown.len() && grown[j] == x;
        if j < path.len() {
            assert(path[j] == x);
        }
    }
    grown.unique_seq_to_set();
    lemma_len_subset(grown.to_set(), m.dom());
    assert forall|t: Seq<char>|
        m.dom().contains(t) && dependency_of(expr) == Some(t) implies valid_eval_path(
        m,
        grown,
        t,
        m[t],
    ) by {
        assert forall|i: int| 0 <= i < grown.len() - 1 implies dependency_of(
            m[#[trigger] grown[i]],
        ) == Some(grown[i + 1]) by {
            if i < path.len() - 1 {
                assert(grown[i] == path[i]);
                assert(grown[i + 1] == path[i + 1]);
            } else {
                assert(grown[i] == path.last());
                assert(grown[i + 1] == name);
            }
        }
        assert(grown.last() == name);
        assert(dependency_of(m[name]) == Some(t));
    }
}

#[via_fn]
proof fn eval_in_decreases(
    m: Map<Seq<char>, ExprModel>,
    name: Seq<char>,
    expr: ExprModel,
    path: Seq<Seq<char>>,
) {
    if m.dom().finite() && valid_eval_path(m, path, name, expr) && !has_cycle(m, name) && aligned(
        m,
        name,
        expr,
    ) {
        lemma_path_step(m, path, name, expr);
    }
}

/// What evaluating `(name, expr)` against the index `m` yields. This is the
/// function every public evaluation contract speaks of.
pub open spec fn eval_model(m: Map<Seq<char>, ExprModel>, name: Seq<char>, expr: ExprModel) -> Result<
    ValueModel,
    Seq<char>,
> {
    eval_in(m, name, expr, Seq::empty())
}

/// The outcome of an evaluation does not depend on the path it was reached
/// by: any two valid paths give the same result. This is what lets one
/// memoized result stand for every evaluation of the same name and
/// expression within a pass.
pub proof fn lemma_eval_in_any_path(
    m: Map<Seq<char>, ExprModel>,
    name: Seq<char>,
    expr: ExprModel,
    p1: Seq<Seq<char>>,
    p2: Seq<Seq<char>>,
)
    requires
        m.dom().finite(),
        valid_eval_path(m, p1, name, expr),
        valid_eval_path(m, p2, name, expr),
    ensures
        eval_in(m, name, expr, p1) == eval_in(m, name, expr, p2),
    decreases align_rank(m, name, expr), m.dom().len() + 1 - p1.len(), 1int,
{
    if has_cycle(m, name) {
        assert(eval_in(m, name, expr, p1) == eval_in(m, name, expr, p2));
    } else {
        match expr {
            ExprModel::Equals { target, .. } => {
                if m.dom().contains(target) {
                    recurse_any_path(m, name, expr, p1, p2, target);
                    assert(eval_in(m, name, expr, p1) == eval_in(m, name, expr, p2));
                } else {
                    assert(eval_in(m, name, expr, p1) == eval_in(m, name, expr, p2));
                }
            },
            ExprModel::GetProperty { target, .. } => {
                if m.dom().contains(target) {
                    recurse_any_path(m, name, expr, p1, p2, target);
                    assert(eval_in(m, name, expr, p1) == eval_in(m, name, expr, p2));
                } else {
                    assert(eval_in(m, name, expr, p1) == eval_in(m, name, expr, p2));
                }
            },
            ExprModel::StringConstant(_) => {
                assert(eval_in(m, name, expr, p1) == eval_in(m, name, expr, p2));
            },
            ExprModel::Request { .. } => {
                assert(eval_in(m, name, expr, p1) == eval_in(m, name, expr, p2));
            },
        }
    }
}

/// The inductive step of [`lemma_eval_in_any_path`], shared by the two
/// referencing variants.
proof fn recurse_any_path(
    m: Map<Seq<char>, ExprModel>,
    name: Seq<char>,
    expr: ExprModel,
    p1: Seq<Seq<char>>,
    p2: Seq<Seq<char>>,
    target: Seq<char>,
)
    requires
        m.dom().finite(),
        valid_eval_path(m, p1, name, expr),
        valid_eval_path(m, p2, name, expr),
        !has_cycle(m, name),
        m.dom().contains(target),
        dependency_of(expr) == Some(target),
    ensures
        eval_in(m, target, m[target], next_path(m, p1, name, expr)) == eval_in(
            m,
            target,
            m[target],
            next_path(m, p2, name, expr),
        ),
        valid_eval_path(m, next_path(m, p1, name, expr), target, m[target]),
        valid_eval_path(m, next_path(m, p2, name, expr), target, m[target]),
    decreases align_rank(m, name, expr), m.dom().len() + 1 - p1.len(), 0int,
{
    if aligned(m, name, expr) {
        lemma_path_step(m, p1, name, expr);
        lemma_path_step(m, p2, name, expr);
        lemma_eval_in_any_path(m, target, m[target], p1.push(name), p2.push(name));
    } else {
        assert(next_path(m, p1, name, expr) == next_path(m, p2, name, expr));
        assert(valid_eval_path(m, Seq::empty(), target, m[target]));
    }
}

// ------------------------------------------------------------------
// Views of executable state
// ------------------------------------------------------------------
/// The names a list of texts holds.
pub open spec fn texts_model(s: Seq<Text>) -> Seq<Seq<char>> {
    Seq::new(s.len(), |i: int| s[i]@)
}

/// The models of a list of nodes.
pub open spec fn nodes_model(s: Seq<Node>) -> Seq<NodeModel> {
    Seq::new(s.len(), |i: int| s[i]@)
}

/// The model of an evaluation result: the value's or the error message's.
pub open spec fn result_model(r: Result<Value, EvaluationError>) -> Result<ValueModel, Seq<char>> {
    match r {
        Ok(v) => Ok(v@),
        Err(e) => Err(e@),
    }
}

// ------------------------------------------------------------------
// The named-expression index
// ------------------------------------------------------------------
/// The first-registered expression for a name, together with the position
/// of the node it came from. The position takes no part in evaluation; it
/// is kept for index stability.
#[derive(Debug, PartialEq, Eq)]
pub struct NamedExpression {
    pub index: usize,
    pub expression: Expression,
}

impl Clone for NamedExpression {
    fn clone(&self) -> (r: Self)
        ensures
            r.index == self.index,
            r.expression@ == self.expression@,
    {
        NamedExpression { index: self.index, expression: self.expression.clone() }
    }
}

struct IndexEntry {
    name: Text,
    named: NamedExpression,
}

/// The name-to-expression lookup table built from a node list: the first
/// node of each name registers its expression, later nodes of the same name
/// are invisible to lookups.
pub struct NamedExpressions {
    entries: Vec<IndexEntry>,
}

/// The mapping a list of index entries encodes, later entries taking
/// precedence (entries never share a name, so the order cannot matter).
spec fn entries_map(s: Seq<IndexEntry>) -> Map<Seq<char>, ExprModel>
    decreases s.len(),
{
    if s.len() == 0 {
        Map::empty()
    } else {
        entries_map(s.drop_last()).insert(s.last().name@, s.last().named.expression@)
    }
}

impl View for NamedExpressions {
    type V = Map<Seq<char>, ExprModel>;

    closed spec fn view(&self) -> Map<Seq<char>, ExprModel> {
        entries_map(self.entries@)
    }
}

/// With pairwise distinct names, the encoded mapping holds exactly the
/// entries' names, each bound to its own entry's expression.
proof fn lemma_entries_map(s: Seq<IndexEntry>)
    requires
        forall|i: int, j: int| 0 <= i < j < s.len() ==> s[i].name@ != s[j].name@,
    ensures
        entries_map(s).dom().finite(),
        forall|n: Seq<char>|
            entries_map(s).dom().contains(n) <==> exists|i: int|
                0 <= i < s.len() && (#[trigger] s[i]).name@ == n,
        forall|i: int|
            0 <= i < s.len() ==> entries_map(s)[(#[trigger] s[i]).name@] == s[i].named.expression@,
    decreases s.len(),
{
    if s.len() > 0 {
        let rest = s.drop_last();
        lemma_entries_map(rest);
        assert forall|n: Seq<char>| entries_map(s).dom().contains(n) implies exists|i: int|
            0 <= i < s.len() && (#[trigger] s[i]).name@ == n by {
            if n == s.last().name@ {
                assert(s[s.len() - 1].name@ == n);
            } else {
                let i = choose|i: int| 0 <= i < rest.len() && (#[trigger] rest[i]).name@ == n;
                assert(s[i].name@ == n);
            }
        }
        assert forall|n: Seq<char>|
            (exists|i: int| 0 <= i < s.len() && (#[trigger] s[i]).name@ == n) implies entries_map(
            s,
        ).dom().contains(n) by {
            let i = choose|i: int| 0 <= i < s.len() && (#[trigger] s[i]).name@ == n;
            if i < s.len() - 1 {
                assert(rest[i].name@ == n);
            }
        }
        assert forall|i: int| 0 <= i < s.len() implies entries_map(s)[(#[trigger] s[i]).name@]
            == s[i].named.expression@ by {
            if i < s.len() - 1 {
                assert(rest[i] == s[i]);
                assert(s[i].name@ != s.last().name@);
            }
        }
    }
}

impl NamedExpressions {
    /// Entry names never repeat: each name is registered once.
    pub closed spec fn wf(&self) -> bool {
        forall|i: int, j: int|
            0 <= i < j < self.entries@.len() ==> self.entries@[i].name@ != self.entries@[j].name@
    }

    /// A well-formed index maps finitely many names.
    pub proof fn lemma_wf(&self)
        requires
            self.wf(),
        ensures
            self@.dom().finite(),
    {
        lemma_entries_map(self.entries@);
    }

    /// The expression registered for a name, if any.
    #[verifier::loop_isolation(false)]
    pub fn get(&self, name: &Text) -> (r: Option<&NamedExpression>)
        requires
            self.wf(),
        ensures
            match r {
                Some(ne) => self@.dom().contains(name@) && ne.expression@ == self@[name@],
                None => !self@.dom().contains(name@),
            },
    {
        proof {
            lemma_entries_map(self.entries@);
        }
        let n = self.entries.len();
        let mut i: usize = 0;
        while i < n
            invariant
                0 <= i <= n,
                forall|j: int| 0 <= j < i ==> (#[trigger] self.entries@[j]).name@ != name@,
            decreases n - i,
        {
            if self.entries[i].name.eq_text(name) {
                return Some(&self.entries[i].named);
            }
            i += 1;
        }
        None
    }
}

/// The single name an expression references, if any.
fn dependency(expr: &Expression) -> (r: Option<&Text>)
    ensures
        match r {
            Some(t) => dependency_of(expr@) == Some(t@),
            None => dependency_of(expr@) is None,
        },
{
    match expr {
        Expression::StringConstant(_) => None,
        Expression::Request { .. } => None,
        Expression::Equals { target, .. } => Some(target),
        Expression::GetProperty { target, .. } => Some(target),
    }
}

/// Whether a list of texts holds this content.
#[verifier::loop_isolation(false)]
fn contains_text(items: &Vec<Text>, t: &Text) -> (r: bool)
    ensures
        r == texts_model(items@).contains(t@),
{
    let n = items.len();
    let mut i: usize = 0;
    while i < n
        invariant
            0 <= i <= n,
            forall|j: int| 0 <= j < i ==> texts_model(items@)[j] != t@,
        decreases n - i,
    {
        if items[i].eq_text(t) {
            assert(texts_model(items@)[i as int] == t@);
            return true;
        }
        i += 1;
    }
    assert(forall|j: int| 0 <= j < texts_model(items@).len() ==> texts_model(items@)[j] != t@);
    false
}

/// Follows the reference chain from `name` and reports the cycle it closes,
/// if it closes one.
#[verifier::loop_isolation(false)]
fn cycle_scan(index: &NamedExpressions, name: &Text) -> (r: Option<Sequence<Text>>)
    requires
        index.wf(),
    ensures
        ({
            let w = cycle_walk(index@, name@, seq![name@], name@);
            match r {
                Some(chain) => chain@.len() >= 1 && w == Some(texts_model(chain@)),
                None => w is None,
            }
        }),
{
    let ghost m = index@;
    proof {
        index.lemma_wf();
    }
    let mut seen: Vec<Text> = Vec::new();
    seen.push(name.clone());
    let mut cur: Text = name.clone();
    proof {
        assert(texts_model(seen@) =~= seq![name@]);
    }
    loop
        invariant
            index.wf(),
            walk_state_ok(m, name@, texts_model(seen@), cur@),
            seen@.len() >= 1,
            cycle_walk(m, name@, seq![name@], name@) == cycle_walk(
                m,
                name@,
                texts_model(seen@),
                cur@,
            ),
        decreases m.dom().len() + 1 - seen@.len(),
    {
        proof {
            if m.dom().contains(cur@) {
                lemma_walk_seen_bound(m, name@, texts_model(seen@), cur@);
            }
        }
        match index.get(&cur) {
            None => {
                return None;
            },
            Some(ne) => {
                match dependency(&ne.expression) {
                    None => {
                        return None;
                    },
                    Some(dep) => {
                        if dep.eq_text(name) {
                            let d = dep.clone();
                            seen.push(d);
                            proof {
                                assert(texts_model(seen@) =~= texts_model(seen@.drop_last()).push(
                                    name@,
                                ));
                            }
                            return Some(Sequence::new(seen));
                        }
                        if contains_text(&seen, dep) {
                            return None;
                        }
                        let d = dep.clone();
                        let ghost old_seen = seen@;
                        seen.push(d.clone());
                        cur = d;
                        proof {
                            assert(texts_model(seen@) =~= texts_model(old_seen).push(cur@));
                        }
                    },
                }
            },
        }
    }
}

// ------------------------------------------------------------------
// Error construction
// ------------------------------------------------------------------
/// The error for a reference to a name without a node.
fn no_input_error(target: &Text) -> (e: EvaluationError)
    ensures
        e@ == no_input_message(target@),
{
    let mut s = String::from_str("No \"");
    s.append(target.as_str());
    s.append("\" input found");
    EvaluationError::new(s.as_str())
}

/// The error for a field read on a value that is not an object.
fn not_object_error(target: &Text) -> (e: EvaluationError)
    ensures
        e@ == not_object_message(target@),
{
    let mut s = String::from_str("Unresolved field access: \"");
    s.append(target.as_str());
    s.append("\" is not an object");
    EvaluationError::new(s.as_str())
}

/// The error for a field read that finds no field of that name.
fn missing_field_error(field: &Text) -> (e: EvaluationError)
    ensures
        e@ == missing_field_message(field@),
{
    let mut s = String::from_str("Unresolved field access: no field \"");
    s.append(field.as_str());
    s.append("\"");
    EvaluationError::new(s.as_str())
}

/// The error reporting a cycle, its chain joined with arrows.
#[verifier::loop_isolation(false)]
fn cycle_error(chain: &Sequence<Text>) -> (e: EvaluationError)
    requires
        chain@.len() >= 1,
    ensures
        e@ == cycle_message(texts_model(chain@)),
{
    let mut s = String::from_str("Cycle detected: ");
    let n = chain.len();
    let mut i: usize = 0;
    while i < n
        invariant
            0 <= i <= n,
            i == 0 ==> s@ == "Cycle detected: "@,
            i > 0 ==> s@ == "Cycle detected: "@ + joined_names(
                texts_model(chain@).take(i as int),
            ),
        decreases n - i,
    {
        if i > 0 {
            s.append(" → ");
        }
        s.append(chain.get(i).as_str());
        proof {
            let tm = texts_model(chain@);
            assert(tm.take(i + 1).drop_last() =~= tm.take(i as int));
            assert(tm.take(i + 1).last() == chain@[i as int]@);
        }
        i += 1;
    }
    proof {
        assert(texts_model(chain@).take(n as int) =~= texts_model(chain@));
    }
    EvaluationError::new(s.as_str())
}

// ------------------------------------------------------------------
// The memo table
// ------------------------------------------------------------------
struct MemoEntry {
    name: Text,
    expr: Expression,
    result: Result<Value, EvaluationError>,
}

/// The evaluation cache of one pass: what it stores for a name and an
/// expression is exactly what evaluating them yields, so a hit stands for a
/// recomputation.
struct MemoTable {
    entries: Vec<MemoEntry>,
}

impl MemoTable {
    /// An empty cache.
    fn new() -> (r: MemoTable)
        ensures
            r.entries@.len() == 0,
    {
        MemoTable { entries: Vec::new() }
    }

    /// Every stored result is the one the semantics assigns.
    spec fn wf(&self, m: Map<Seq<char>, ExprModel>) -> bool {
        forall|i: int|
            0 <= i < self.entries@.len() ==> result_model(
                (#[trigger] self.entries@[i]).result,
            ) == eval_model(m, self.entries@[i].name@, self.entries@[i].expr@)
    }
}

/// A copy of an evaluation result.
fn clone_result(r: &Result<Value, EvaluationError>) -> (c: Result<Value, EvaluationError>)
    ensures
        result_model(c) == result_model(*r),
{
    match r {
        Ok(v) => Ok(v.clone()),
        Err(e) => Err(e.clone()),
    }
}

/// The memoized result for a name and an expression, if one is stored.
#[verifier::loop_isolation(false)]
fn cache_lookup(
    cache: &MemoTable,
    name: &Text,
    expr: &Expression,
    Ghost(m): Ghost<Map<Seq<char>, ExprModel>>,
) -> (r: Option<Result<Value, EvaluationError>>)
    requires
        cache.wf(m),
    ensures
        match r {
            Some(res) => result_model(res) == eval_model(m, name@, expr@),
            None => true,
        },
{
    let n = cache.entries.len();
    let mut i: usize = 0;
    while i < n
        invariant
            0 <= i <= n,
        decreases n - i,
    {
        if cache.entries[i].name.eq_text(name) && cache.entries[i].expr.eq_expr(expr) {
            return Some(clone_result(&cache.entries[i].result));
        }
        i += 1;
    }
    None
}

/// Stores a computed result.
fn cache_store(
    cache: &mut MemoTable,
    name: &Text,
    expr: &Expression,
    result: &Result<Value, EvaluationError>,
    Ghost(m): Ghost<Map<Seq<char>, ExprModel>>,
)
    requires
        old(cache).wf(m),
        result_model(*result) == eval_model(m, name@, expr@),
    ensures
        final(cache).wf(m),
{
    let entry = MemoEntry { name: name.clone(), expr: expr.clone(), result: clone_result(result) };
    cache.entries.push(entry);
    proof {
        assert forall|i: int| 0 <= i < cache.entries@.len() implies result_model(
            (#[trigger] cache.entries@[i]).result,
        ) == eval_model(m, cache.entries@[i].name@, cache.entries@[i].expr@) by {
            if i < cache.entries@.len() - 1 {
                assert(cache.entries@[i] == old(cache).entries@[i]);
            }
        }
    }
}

// ------------------------------------------------------------------
// The evaluator
// ------------------------------------------------------------------
/// Evaluates `(name, expr)` against the index, consulting and filling the
/// memo table; `path` is the chain of registered evaluations in progress.
fn eval_at(
    index: &NamedExpressions,
    cache: &mut MemoTable,
    name: &Text,
    expr: &Expression,
    Ghost(path): Ghost<Seq<Seq<char>>>,
) -> (r: Result<Value, EvaluationError>)
    requires
        index.wf(),
        old(cache).wf(index@),
        valid_eval_path(index@, path, name@, expr@),
    ensures
        final(cache).wf(index@),
        result_model(r) == eval_in(index@, name@, expr@, path),
    decreases align_rank(index@, name@, expr@), index@.dom().len() + 1 - path.len(),
{
    let ghost m = index@;
    proof {
        index.lemma_wf();
        assert(valid_eval_path(m, Seq::empty(), name@, expr@));
        lemma_eval_in_any_path(m, name@, expr@, path, Seq::empty());
    }
    if let Some(res) = cache_lookup(cache, name, expr, Ghost(m)) {
        return res;
    }
    let r: Result<Value, EvaluationError> = match cycle_scan(index, name) {
        Some(chain) => Err(cycle_error(&chain)),
        None => match expr {
            Expression::StringConstant(s) => Ok(Value::String(s.clone())),
            Expression::Request { response, error, .. } => match error {
                Some(e) => Err(e.clone()),
                None => match response {
                    Some(resp) => Ok(Value::from_response(resp)),
                    None => Ok(Value::Indeterminate),
                },
            },
            Expression::Equals { target, value } => match index.get(target) {
                None => Err(no_input_error(target)),
                Some(ne) => {
                    proof {
                        if aligned(m, name@, expr@) {
                            lemma_path_step(m, path, name@, expr@);
                        } else {
                            assert(valid_eval_path(m, Seq::empty(), target@, m[target@]));
                        }
                    }
                    let sub = eval_at(
                        index,
                        cache,
                        target,
                        &ne.expression,
                        Ghost(next_path(m, path, name@, expr@)),
                    );
                    match sub {
                        Ok(tv) => Ok(Value::Boolean(tv.eq_value(value))),
                        Err(_) => Ok(Value::Indeterminate),
                    }
                },
            },
            Expression::GetProperty { target, field } => match index.get(target) {
                None => Err(no_input_error(target)),
                Some(ne) => {
                    proof {
                        if aligned(m, name@, expr@) {
                            lemma_path_step(m, path, name@, expr@);
                        } else {
                            assert(valid_eval_path(m, Seq::empty(), target@, m[target@]));
                        }
                    }
                    let sub = eval_at(
                        index,
                        cache,
                        target,
                        &ne.expression,
                        Ghost(next_path(m, path, name@, expr@)),
                    );
                    match sub {
                        Ok(tv) => match tv {
                            Value::Object(obj) => match obj.get(field) {
                                Some(v) => Ok(v.clone()),
                                None => Err(missing_field_error(field)),
                            },
                            _ => Err(not_object_error(target)),
                        },
                        Err(_) => Ok(Value::Indeterminate),
                    }
                },
            },
        },
    };
    cache_store(cache, name, expr, &r, Ghost(m));
    r
}

// ------------------------------------------------------------------
// The evaluation set
// ------------------------------------------------------------------
/// A node's evaluation outcome: its name and its value or error.
#[derive(Debug, PartialEq, Eq)]
pub struct NodeResult {
    pub name: Text,
    pub value: Result<Value, EvaluationError>,
}

impl Clone for NodeResult {
    fn clone(&self) -> (r: Self)
        ensures
            r.name@ == self.name@,
            result_model(r.value) == result_model(self.value),
    {
        NodeResult { name: self.name.clone(), value: clone_result(&self.value) }
    }
}

/// The position scanned for a name among index entries.
spec fn entries_position(s: Seq<IndexEntry>, n: Seq<char>) -> int
    decreases s.len(),
{
    if s.len() == 0 {
        0
    } else if s.last().name@ == n {
        s.last().named.index as int
    } else {
        entries_position(s.drop_last(), n)
    }
}

/// With distinct names, the position scanned for an entry's name is the
/// position that entry stores.
proof fn lemma_entries_position(s: Seq<IndexEntry>)
    requires
        forall|i: int, j: int| 0 <= i < j < s.len() ==> s[i].name@ != s[j].name@,
    ensures
        forall|k: int|
            0 <= k < s.len() ==> entries_position(s, (#[trigger] s[k]).name@) == s[k].named.index,
    decreases s.len(),
{
    if s.len() > 0 {
        let rest = s.drop_last();
        lemma_entries_position(rest);
        assert forall|k: int| 0 <= k < s.len() implies entries_position(s, (#[trigger] s[k]).name@)
            == s[k].named.index by {
            if k < s.len() - 1 {
                assert(s[k].name@ != s.last().name@);
                assert(rest[k] == s[k]);
            }
        }
    }
}

impl NamedExpressions {
    /// The node position registered for a name.
    pub closed spec fn position_of(&self, n: Seq<char>) -> int {
        entries_position(self.entries@, n)
    }
}

/// Whether some entry carries this name.
#[verifier::loop_isolation(false)]
fn entries_contain(entries: &Vec<IndexEntry>, name: &Text) -> (r: bool)
    ensures
        r == exists|i: int| 0 <= i < entries@.len() && (#[trigger] entries@[i]).name@ == name@,
{
    let n = entries.len();
    let mut i: usize = 0;
    while i < n
        invariant
            0 <= i <= n,
            forall|j: int| 0 <= j < i ==> (#[trigger] entries@[j]).name@ != name@,
        decreases n - i,
    {
        if entries[i].name.eq_text(name) {
            return true;
        }
        i += 1;
    }
    false
}

/// An evaluation set: the node list the host supplied, evaluated as a
/// whole. The index and the memo table are rebuilt for each pass, so
/// results never outlive the list they were computed from.
pub struct Evaluator {
    nodes: Sequence<Node>,
}

impl View for Evaluator {
    type V = Seq<NodeModel>;

    closed spec fn view(&self) -> Seq<NodeModel> {
        nodes_model(self.nodes@)
    }
}

impl Evaluator {
    /// An evaluator with no nodes.
    pub fn new() -> (r: Evaluator)
        ensures
            r@ == Seq::<NodeModel>::empty(),
    {
        let r = Evaluator { nodes: Sequence::empty() };
        proof {
            assert(r@ =~= Seq::<NodeModel>::empty());
        }
        r
    }

    /// Replaces the node list. Anything derived from the old list (index,
    /// memoized results) is discarded with it.
    pub fn set_nodes(&mut self, nodes: Sequence<Node>)
        ensures
            final(self)@ == nodes_model(nodes@),
    {
        self.nodes = nodes;
    }

    /// The node list under evaluation.
    pub fn nodes(&self) -> (r: &Sequence<Node>)
        ensures
            nodes_model(r@) == self@,
    {
        &self.nodes
    }

    /// Builds the name-to-expression index: the first node of each name
    /// registers its expression and its position; later nodes of the same
    /// name are invisible to lookups (they still evaluate at the top level
    /// with their own expression).
    #[verifier::loop_isolation(false)]
    pub fn named_expressions(&self) -> (r: NamedExpressions)
        ensures
            r.wf(),
            r@ == index_map(self@),
            forall|n: Seq<char>|
                #[trigger] r@.dom().contains(n) ==> 0 <= r.position_of(n) < self@.len()
                    && self@[r.position_of(n)].name == n && self@[r.position_of(n)].expr == r@[n]
                    && (forall|j: int| 0 <= j < r.position_of(n) ==> self@[j].name != n),
    {
        let ghost nv = self@;
        let n = self.nodes.len();
        let mut entries: Vec<IndexEntry> = Vec::new();
        let mut i: usize = 0;
        proof {
            assert(nv.take(0) =~= Seq::<NodeModel>::empty());
        }
        while i < n
            invariant
                0 <= i <= n,
                n == self.nodes@.len(),
                forall|a: int, b: int|
                    0 <= a < b < entries@.len() ==> entries@[a].name@ != entries@[b].name@,
                entries_map(entries@) == index_map(nv.take(i as int)),
                forall|k: int|
                    0 <= k < entries@.len() ==> {
                        let e = #[trigger] entries@[k];
                        &&& e.named.index < i
                        &&& nv[e.named.index as int].name == e.name@
                        &&& nv[e.named.index as int].expr == e.named.expression@
                        &&& forall|j: int| 0 <= j < e.named.index ==> nv[j].name != e.name@
                    },
            decreases n - i,
        {
            let node = self.nodes.get(i);
            proof {
                lemma_entries_map(entries@);
                lemma_index_map_dom(nv.take(i as int));
                assert(nv.take(i + 1).drop_last() =~= nv.take(i as int));
                assert(nv.take(i + 1).last() == nv[i as int]);
            }
            if !entries_contain(&entries, &node.name) {
                let ghost old_entries = entries@;
                let entry = IndexEntry {
                    name: node.name.clone(),
                    named: NamedExpression { index: i, expression: node.expr.clone() },
                };
                entries.push(entry);
                proof {
                    assert(entries@.drop_last() =~= old_entries);
                    assert(entries_map(entries@) == entries_map(old_entries).insert(
                        nv[i as int].name,
                        nv[i as int].expr,
                    ));
                    assert forall|j: int| 0 <= j < i implies nv[j].name != nv[i as int].name by {
                        if nv[j].name == nv[i as int].name {
                            assert(nv.take(i as int)[j].name == nv[i as int].name);
                            assert(has_node_named(nv.take(i as int), nv[i as int].name));
                        }
                    }
                }
            }
            i += 1;
        }
        let r = NamedExpressions { entries };
        proof {
            assert(nv.take(n as int) =~= nv);
            lemma_entries_map(r.entries@);
            lemma_entries_position(r.entries@);
            assert forall|nm: Seq<char>| #[trigger] r@.dom().contains(nm) implies 0
                <= r.position_of(nm) < nv.len() && nv[r.position_of(nm)].name == nm && nv[r.position_of(
                nm,
            )].expr == r@[nm] && (forall|j: int| 0 <= j < r.position_of(nm) ==> nv[j].name != nm) by {
                let k = choose|k: int|
                    0 <= k < r.entries@.len() && (#[trigger] r.entries@[k]).name@ == nm;
                assert(entries_position(r.entries@, nm) == r.entries@[k].named.index);
                assert(r@[r.entries@[k].name@] == r.entries@[k].named.expression@);
            }
        }
        r
    }

    /// Follows the reference chain from `name`: reports the full chain of
    /// visited names when it returns to `name`, and nothing when the chain
    /// ends, leaves the index, or runs into a loop elsewhere.
    pub fn reference_cycle(&self, name: &Text) -> (r: Option<Sequence<Text>>)
        ensures
            ({
                let w = cycle_walk(index_map(self@), name@, seq![name@], name@);
                match r {
                    Some(chain) => chain@.len() >= 1 && w == Some(texts_model(chain@)),
                    None => w is None,
                }
            }),
    {
        let index = self.named_expressions();
        cycle_scan(&index, name)
    }

    /// Evaluates one expression under a name, against the current node
    /// list.
    pub fn eval(&self, name: Text, expr: Expression) -> (r: Result<Value, EvaluationError>)
        ensures
            result_model(r) == eval_model(index_map(self@), name@, expr@),
    {
        let index = self.named_expressions();
        let mut cache = MemoTable::new();
        proof {
            assert(valid_eval_path(index@, Seq::empty(), name@, expr@));
        }
        eval_at(&index, &mut cache, &name, &expr, Ghost(Seq::empty()))
    }

    /// Evaluates every node, in input order: one outcome per node, each
    /// computed for the node's own name and expression (duplicate names
    /// included), failures isolated to their node. The pass never fails as
    /// a whole.
    #[verifier::loop_isolation(false)]
    pub fn evaluate(&self) -> (r: Sequence<NodeResult>)
        ensures
            r@.len() == self@.len(),
            evaluate_matches(self@, results_model(r@)),
    {
        let index = self.named_expressions();
        let mut cache = MemoTable::new();
        let mut results: Vec<NodeResult> = Vec::new();
        let n = self.nodes.len();
        let mut i: usize = 0;
        while i < n
            invariant
                0 <= i <= n,
                n == self.nodes@.len(),
                index.wf(),
                index@ == index_map(self@),
                cache.wf(index@),
                results@.len() == i,
                forall|j: int|
                    0 <= j < i ==> (#[trigger] results@[j]).name@ == self@[j].name && result_model(
                        results@[j].value,
                    ) == eval_model(index_map(self@), self@[j].name, self@[j].expr),
            decreases n - i,
        {
            let node = self.nodes.get(i);
            proof {
                assert(valid_eval_path(index@, Seq::empty(), node.name@, node.expr@));
            }
            let value = eval_at(&index, &mut cache, &node.name, &node.expr, Ghost(Seq::empty()));
            results.push(NodeResult { name: node.name.clone(), value });
            i += 1;
        }
        let r = Sequence::new(results);
        proof {
            assert(results_model(r@).len() == self@.len());
        }
        r
    }
}

// ------------------------------------------------------------------
// Laws
// ------------------------------------------------------------------
/// The view of a result list: each entry's name and outcome.
pub open spec fn results_model(s: Seq<NodeResult>) -> Seq<(Seq<char>, Result<ValueModel, Seq<char>>)> {
    Seq::new(s.len(), |i: int| (s[i].name@, result_model(s[i].value)))
}

/// What a full evaluation pass returns for a node list: exactly one outcome
/// per node, in input order, each carrying the node's name and the
/// semantics' result for the node's own name and expression.
pub open spec fn evaluate_matches(
    nodes: Seq<NodeModel>,
    results: Seq<(Seq<char>, Result<ValueModel, Seq<char>>)>,
) -> bool {
    &&& results.len() == nodes.len()
    &&& forall|i: int|
        0 <= i < nodes.len() ==> #[trigger] results[i] == (
            nodes[i].name,
            eval_model(index_map(nodes), nodes[i].name, nodes[i].expr),
        )
}

/// Evaluation is deterministic: any two passes over the same node list
/// return the same results, entry for entry. There is no hidden state; the
/// outcome is a function of the node list alone.
pub proof fn lemma_evaluate_deterministic(
    nodes: Seq<NodeModel>,
    r1: Seq<(Seq<char>, Result<ValueModel, Seq<char>>)>,
    r2: Seq<(Seq<char>, Result<ValueModel, Seq<char>>)>,
)
    requires
        evaluate_matches(nodes, r1),
        evaluate_matches(nodes, r2),
    ensures
        r1 == r2,
{
    assert(r1 =~= r2);
}

} // verus!
