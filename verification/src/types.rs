//! The value and expression model of the engine.

use crate::model::ExprModel;
use crate::model::NodeModel;
use crate::model::RespModel;
use crate::model::ValueModel;
use crate::model::fields_sorted;
use crate::model::lemma_inserted_lookup;
use crate::model::lemma_replace_lookup;
use crate::model::lemma_response_value_wf;
use crate::model::lex_lt;
use crate::model::obj_lookup;
use crate::model::response_value;
use crate::model::value_wf;
use crate::text::Text;
use crate::text::TextOrder;
use vstd::prelude::*;

verus! {

/// A named formula of the evaluation set.
#[derive(Debug, PartialEq, Eq)]
pub struct Node {
    pub name: Text,
    pub expr: Expression,
}

/// The formula held by a node.
///
/// At most one variant references another node by name (`Equals` and
/// `GetProperty` through their target), so the reference structure rooted in
/// any node is a chain, never a tree.
#[derive(Debug, PartialEq, Eq)]
pub enum Expression {
    /// A string literal.
    StringConstant(Text),
    /// The outcome of a network fetch resolved outside the engine. At most
    /// one of `response` and `error` is populated; both absent means the
    /// request is still pending.
    Request { url: Text, response: Option<Response>, error: Option<EvaluationError> },
    /// Compares the evaluated value of the `target` node against a literal.
    Equals { target: Text, value: Value },
    /// Reads one field of the `target` node's evaluated object value.
    GetProperty { target: Text, field: Text },
}

/// A resolved network response, produced outside the engine.
#[derive(Debug, PartialEq, Eq)]
pub struct Response {
    pub status: i32,
    pub status_text: Text,
    pub url: Text,
    pub body: Value,
}

/// An evaluation failure: an opaque human-readable message, compared by
/// content.
#[derive(Debug, PartialEq, Eq)]
pub struct EvaluationError {
    message: Text,
}

/// One name/value field of an [`Object`].
#[derive(Debug, PartialEq, Eq)]
pub struct ObjectField {
    pub name: Text,
    pub value: Value,
}

/// A tree-shaped mapping from field names to values.
///
/// A well-formed object keeps its fields sorted by name, so that two objects
/// encoding the same mapping are structurally identical; [`Object::insert`]
/// maintains that order.
#[derive(Debug, PartialEq, Eq)]
pub struct Object {
    pub fields: Vec<ObjectField>,
}

/// The result of evaluating a formula.
#[derive(Debug, PartialEq, Eq)]
pub enum Value {
    Number(i32),
    String(Text),
    Boolean(bool),
    Object(Object),
    Indeterminate,
}

/// The model of a value: its variant and contents, objects as the sequence
/// of their fields.
pub open spec fn value_model(v: Value) -> ValueModel
    decreases v,
{
    match v {
        Value::Number(n) => ValueModel::Int(n as int),
        Value::String(t) => ValueModel::Str(t@),
        Value::Boolean(b) => ValueModel::Bool(b),
        Value::Object(obj) => ValueModel::Obj(fields_model(obj.fields@)),
        Value::Indeterminate => ValueModel::Indet,
    }
}

/// The model of a field list: each field as a name/value pair.
pub open spec fn fields_model(fields: Seq<ObjectField>) -> Seq<(Seq<char>, ValueModel)>
    decreases fields,
{
    if fields.len() == 0 {
        Seq::empty()
    } else {
        seq![(fields[0].name@, value_model(fields[0].value))] + fields_model(fields.skip(1))
    }
}

/// The model of a field list is the list of the fields' models, index by
/// index.
pub broadcast proof fn lemma_fields_model(fields: Seq<ObjectField>)
    ensures
        (#[trigger] fields_model(fields)).len() == fields.len(),
        forall|i: int|
            0 <= i < fields.len() ==> fields_model(fields)[i] == (
                fields[i].name@,
                value_model(fields[i].value),
            ),
    decreases fields.len(),
{
    if fields.len() > 0 {
        lemma_fields_model(fields.skip(1));
        assert forall|i: int| 0 <= i < fields.len() implies fields_model(fields)[i] == (
            fields[i].name@,
            value_model(fields[i].value),
        ) by {
            if i > 0 {
                assert(fields_model(fields)[i] == fields_model(fields.skip(1))[i - 1]);
                assert(fields.skip(1)[i - 1] == fields[i]);
            }
        }
    }
}

impl View for Value {
    type V = ValueModel;

    open spec fn view(&self) -> ValueModel {
        value_model(*self)
    }
}

impl View for Object {
    type V = Seq<(Seq<char>, ValueModel)>;

    open spec fn view(&self) -> Seq<(Seq<char>, ValueModel)> {
        fields_model(self.fields@)
    }
}

impl View for EvaluationError {
    type V = Seq<char>;

    closed spec fn view(&self) -> Seq<char> {
        self.message@
    }
}

impl View for Response {
    type V = RespModel;

    open spec fn view(&self) -> RespModel {
        RespModel {
            status: self.status as int,
            status_text: self.status_text@,
            url: self.url@,
            body: self.body@,
        }
    }
}

impl View for Expression {
    type V = ExprModel;

    open spec fn view(&self) -> ExprModel {
        match self {
            Expression::StringConstant(s) => ExprModel::StringConstant(s@),
            Expression::Request { url, response, error } => ExprModel::Request {
                url: url@,
                response: match response {
                    Some(r) => Some(r@),
                    None => None,
                },
                error: match error {
                    Some(e) => Some(e@),
                    None => None,
                },
            },
            Expression::Equals { target, value } => ExprModel::Equals {
                target: target@,
                value: value@,
            },
            Expression::GetProperty { target, field } => ExprModel::GetProperty {
                target: target@,
                field: field@,
            },
        }
    }
}

impl View for Node {
    type V = NodeModel;

    open spec fn view(&self) -> NodeModel {
        NodeModel { name: self.name@, expr: self.expr@ }
    }
}

impl Expression {
    /// A string literal expression.
    pub fn string(s: Text) -> (e: Expression)
        ensures
            e@ == ExprModel::StringConstant(s@),
    {
        Expression::StringConstant(s)
    }

    /// An equality comparison against the named target node.
    pub fn equals(target: Text, value: Value) -> (e: Expression)
        ensures
            e@ == (ExprModel::Equals { target: target@, value: value@ }),
    {
        Expression::Equals { target, value }
    }

    /// A field read on the named target node.
    pub fn get(target: Text, field: Text) -> (e: Expression)
        ensures
            e@ == (ExprModel::GetProperty { target: target@, field: field@ }),
    {
        Expression::GetProperty { target, field }
    }
}

impl EvaluationError {
    /// An error with the given message.
    pub fn new(message: &str) -> (e: EvaluationError)
        ensures
            e@ == message@,
    {
        EvaluationError { message: Text::new(message) }
    }

    /// An error owning the given message.
    pub fn from_text(message: Text) -> (e: EvaluationError)
        ensures
            e@ == message@,
    {
        EvaluationError { message }
    }

    /// The message, verbatim.
    pub fn message(&self) -> (r: &str)
        ensures
            r@ == self@,
    {
        self.message.as_str()
    }

    /// Content equality of messages.
    pub fn eq_error(&self, other: &EvaluationError) -> (r: bool)
        ensures
            r == (self@ == other@),
    {
        self.message.eq_text(&other.message)
    }
}

impl Clone for EvaluationError {
    fn clone(&self) -> (r: Self)
        ensures
            r@ == self@,
    {
        EvaluationError { message: self.message.clone() }
    }
}

impl Value {
    /// Structural equality: same variant and same contents, objects compared
    /// field by field.
    #[verifier::loop_isolation(false)]
    pub fn eq_value(&self, other: &Value) -> (r: bool)
        ensures
            r == (self@ == other@),
        decreases self,
    {
        match self {
            Value::Number(a) => match other {
                Value::Number(b) => *a == *b,
                _ => false,
            },
            Value::String(a) => match other {
                Value::String(b) => a.eq_text(b),
                _ => false,
            },
            Value::Boolean(a) => match other {
                Value::Boolean(b) => *a == *b,
                _ => false,
            },
            Value::Indeterminate => match other {
                Value::Indeterminate => true,
                _ => false,
            },
            Value::Object(a) => match other {
                Value::Object(b) => {
                    proof {
                        lemma_fields_model(a.fields@);
                        lemma_fields_model(b.fields@);
                    }
                    if a.fields.len() != b.fields.len() {
                        return false;
                    }
                    let n = a.fields.len();
                    let mut i: usize = 0;
                    while i < n
                        invariant
                            0 <= i <= n,
                            n == a.fields.len(),
                            n == b.fields.len(),
                            forall|j: int|
                                0 <= j < i ==> fields_model(a.fields@)[j] == fields_model(
                                    b.fields@,
                                )[j],
                        decreases n - i,
                    {
                        proof {
                            lemma_fields_model(a.fields@);
                            lemma_fields_model(b.fields@);
                        }
                        if !a.fields[i].name.eq_text(&b.fields[i].name) {
                            proof {
                                assert(*self == Value::Object(*a));
                                assert(self@ == ValueModel::Obj(fields_model(a.fields@)));
                                assert(fields_model(a.fields@)[i as int].0 != fields_model(
                                    b.fields@,
                                )[i as int].0);
                                assert(fields_model(a.fields@) != fields_model(b.fields@));
                            }
                            return false;
                        }
                        proof {
                            assert(decreases_to!(*self => self->Object_0));
                            assert(decreases_to!(self->Object_0 => self->Object_0.fields));
                            assert(decreases_to!(self->Object_0.fields => self->Object_0.fields@));
                            assert(decreases_to!(self->Object_0.fields@ => self->Object_0.fields@[i as int]));
                            assert(decreases_to!(self->Object_0.fields@[i as int] => self->Object_0.fields@[i as int].value));
                            assert(decreases_to!(*self => a.fields@[i as int].value));
                        }
                        if !a.fields[i].value.eq_value(&b.fields[i].value) {
                            proof {
                                assert(fields_model(a.fields@)[i as int].1 != fields_model(
                                    b.fields@,
                                )[i as int].1);
                                assert(fields_model(a.fields@) != fields_model(b.fields@));
                            }
                            return false;
                        }
                        i += 1;
                    }
                    proof {
                        lemma_fields_model(a.fields@);
                        lemma_fields_model(b.fields@);
                        assert(fields_model(a.fields@) =~= fields_model(b.fields@));
                    }
                    true
                },
                _ => false,
            },
        }
    }

    /// The object encoding of a resolved response: the four parts of the
    /// response keyed by `body`, `status`, `status_text` and `url`, in
    /// sorted order, so the encoding is well formed whenever the body is.
    pub fn from_response(r: &Response) -> (v: Value)
        ensures
            v@ == response_value(r@),
            value_wf(r@.body) ==> value_wf(v@),
    {
        let mut fields: Vec<ObjectField> = Vec::new();
        fields.push(ObjectField { name: Text::new("body"), value: r.body.clone() });
        fields.push(ObjectField { name: Text::new("status"), value: Value::Number(r.status) });
        fields.push(
            ObjectField {
                name: Text::new("status_text"),
                value: Value::String(r.status_text.clone()),
            },
        );
        fields.push(ObjectField { name: Text::new("url"), value: Value::String(r.url.clone()) });
        let v = Value::Object(Object { fields });
        proof {
            let fs = v->Object_0.fields@;
            lemma_fields_model(fs);
            assert(fields_model(fs) =~= response_value(r@)->Obj_0);
            if value_wf(r@.body) {
                lemma_response_value_wf(r@);
            }
        }
        v
    }
}

impl Clone for ObjectField {
    fn clone(&self) -> (r: Self)
        ensures
            r.name@ == self.name@,
            value_model(r.value) == value_model(self.value),
        decreases self,
    {
        ObjectField { name: self.name.clone(), value: self.value.clone() }
    }
}

impl Clone for Object {
    #[verifier::loop_isolation(false)]
    fn clone(&self) -> (r: Self)
        ensures
            r@ == self@,
        decreases self,
    {
        let mut fields: Vec<ObjectField> = Vec::new();
        let n = self.fields.len();
        let mut i: usize = 0;
        while i < n
            invariant
                0 <= i <= n,
                n == self.fields.len(),
                fields@.len() == i,
                forall|j: int|
                    0 <= j < i ==> fields@[j].name@ == self.fields@[j].name@ && value_model(
                        fields@[j].value,
                    ) == value_model(self.fields@[j].value),
            decreases n - i,
        {
            fields.push(self.fields[i].clone());
            i += 1;
        }
        let r = Object { fields };
        proof {
            lemma_fields_model(r.fields@);
            lemma_fields_model(self.fields@);
            assert(fields_model(r.fields@) =~= fields_model(self.fields@));
        }
        r
    }
}

impl Clone for Value {
    fn clone(&self) -> (r: Self)
        ensures
            r@ == self@,
        decreases self,
    {
        match self {
            Value::Number(n) => Value::Number(*n),
            Value::String(t) => Value::String(t.clone()),
            Value::Boolean(b) => Value::Boolean(*b),
            Value::Indeterminate => Value::Indeterminate,
            Value::Object(o) => Value::Object(o.clone()),
        }
    }
}

impl Clone for Response {
    fn clone(&self) -> (r: Self)
        ensures
            r@ == self@,
    {
        Response {
            status: self.status,
            status_text: self.status_text.clone(),
            url: self.url.clone(),
            body: self.body.clone(),
        }
    }
}

impl Clone for Expression {
    fn clone(&self) -> (r: Self)
        ensures
            r@ == self@,
    {
        match self {
            Expression::StringConstant(s) => Expression::StringConstant(s.clone()),
            Expression::Request { url, response, error } => Expression::Request {
                url: url.clone(),
                response: match response {
                    Some(r) => Some(r.clone()),
                    None => None,
                },
                error: match error {
                    Some(e) => Some(e.clone()),
                    None => None,
                },
            },
            Expression::Equals { target, value } => Expression::Equals {
                target: target.clone(),
                value: value.clone(),
            },
            Expression::GetProperty { target, field } => Expression::GetProperty {
                target: target.clone(),
                field: field.clone(),
            },
        }
    }
}

impl Clone for Node {
    fn clone(&self) -> (r: Self)
        ensures
            r@ == self@,
    {
        Node { name: self.name.clone(), expr: self.expr.clone() }
    }
}

impl Object {
    /// An object with no fields.
    pub fn new() -> (r: Object)
        ensures
            r@ == Seq::<(Seq<char>, ValueModel)>::empty(),
    {
        let r = Object { fields: Vec::new() };
        proof {
            assert(r@ =~= Seq::<(Seq<char>, ValueModel)>::empty());
        }
        r
    }

    /// The number of fields.
    pub fn len(&self) -> (r: usize)
        ensures
            r == self@.len(),
    {
        proof {
            lemma_fields_model(self.fields@);
        }
        self.fields.len()
    }

    /// The field at a position, as a name/value pair.
    pub fn field_at(&self, i: usize) -> (r: (&Text, &Value))
        requires
            i < self@.len(),
        ensures
            self@[i as int] == (r.0@, r.1@),
    {
        proof {
            lemma_fields_model(self.fields@);
        }
        (&self.fields[i].name, &self.fields[i].value)
    }

    /// The value of the first field named `name`, if any.
    #[verifier::loop_isolation(false)]
    pub fn get(&self, name: &Text) -> (r: Option<&Value>)
        ensures
            match r {
                Some(v) => obj_lookup(self@, name@) == Some(v@),
                None => obj_lookup(self@, name@) is None,
            },
    {
        proof {
            lemma_fields_model(self.fields@);
            assert(self@.skip(0) =~= self@);
        }
        let n = self.fields.len();
        let mut i: usize = 0;
        while i < n
            invariant
                0 <= i <= n,
                obj_lookup(self@, name@) == obj_lookup(self@.skip(i as int), name@),
            decreases n - i,
        {
            proof {
                assert(self@.skip(i as int)[0] == self@[i as int]);
            }
            if self.fields[i].name.eq_text(name) {
                return Some(&self.fields[i].value);
            }
            proof {
                assert(self@.skip(i as int).skip(1) =~= self@.skip(i as int + 1));
            }
            i += 1;
        }
        None
    }

    /// Binds `value` to `name`: replaces the value of an existing field of
    /// that name, otherwise adds a field at its place in the name order, so
    /// that a well-formed object stays well formed.
    #[verifier::loop_isolation(false)]
    pub fn insert(&mut self, name: Text, value: Value)
        ensures
            obj_lookup(final(self)@, name@) == Some(value@),
            forall|q: Seq<char>|
                q != name@ ==> obj_lookup(final(self)@, q) == obj_lookup(old(self)@, q),
            fields_sorted(old(self)@) ==> fields_sorted(final(self)@),
            value_wf(ValueModel::Obj(old(self)@)) && value_wf(value@) ==> value_wf(
                ValueModel::Obj(final(self)@),
            ),
    {
        proof {
            lemma_fields_model(self.fields@);
        }
        let ghost old_view = self@;
        let n = self.fields.len();
        let mut i: usize = 0;
        let mut stop = false;
        while i < n && !stop
            invariant
                0 <= i <= n,
                self.fields@ == old(self).fields@,
                forall|j: int| 0 <= j < i ==> lex_lt(old_view[j].0, name@),
                stop ==> i < n && lex_lt(name@, old_view[i as int].0),
            decreases 2 * (n - i) + (if stop {
                0int
            } else {
                1int
            }),
        {
            match self.fields[i].name.compare(&name) {
                TextOrder::Before => {
                    i += 1;
                },
                TextOrder::Same => {
                    self.fields.remove(i);
                    self.fields.insert(i, ObjectField { name, value });
                    proof {
                        lemma_fields_model(self.fields@);
                        let new_view = self@;
                        assert(new_view.len() == old_view.len());
                        assert forall|j: int|
                            0 <= j < old_view.len() && j != i implies new_view[j] == old_view[j] by {
                            assert(self.fields@[j] == old(self).fields@[j]);
                        }
                        assert(new_view[i as int].0 == name@);
                        lemma_replace_lookup(old_view, new_view, i as int, name@);
                        if value_wf(ValueModel::Obj(old_view)) && value_wf(value@) {
                            assert(forall|j: int|
                                0 <= j < new_view.len() ==> value_wf(#[trigger] new_view[j].1));
                        }
                    }
                    return ;
                },
                TextOrder::After => {
                    stop = true;
                },
            }
        }
        self.fields.insert(i, ObjectField { name, value });
        proof {
            lemma_fields_model(self.fields@);
            let new_view = self@;
            assert forall|j: int| 0 <= j < i implies new_view[j] == old_view[j] by {
                assert(self.fields@[j] == old(self).fields@[j]);
            }
            assert forall|j: int| i < j < new_view.len() implies new_view[j] == old_view[j - 1] by {
                assert(self.fields@[j] == old(self).fields@[j - 1]);
            }
            assert(new_view[i as int] == (name@, value@));
            lemma_inserted_lookup(old_view, new_view, i as int, name@);
            if value_wf(ValueModel::Obj(old_view)) && value_wf(value@) {
                assert forall|j: int| 0 <= j < new_view.len() implies value_wf(
                    #[trigger] new_view[j].1,
                ) by {
                    if j < i {
                        assert(new_view[j] == old_view[j]);
                        assert(value_wf(old_view[j].1));
                    } else if j > i {
                        assert(new_view[j] == old_view[j - 1]);
                        assert(value_wf(old_view[j - 1].1));
                    }
                }
            }
        }
    }
}

impl Expression {
    /// Structural equality: same variant and same contents.
    pub fn eq_expr(&self, other: &Expression) -> (r: bool)
        ensures
            r == (self@ == other@),
    {
        match self {
            Expression::StringConstant(a) => match other {
                Expression::StringConstant(b) => a.eq_text(b),
                _ => false,
            },
            Expression::Request { url, response, error } => match other {
                Expression::Request { url: url2, response: response2, error: error2 } => {
                    if !url.eq_text(url2) {
                        return false;
                    }
                    let responses_eq = match (response, response2) {
                        (None, None) => true,
                        (Some(a), Some(b)) => a.status == b.status && a.status_text.eq_text(
                            &b.status_text,
                        ) && a.url.eq_text(&b.url) && a.body.eq_value(&b.body),
                        _ => false,
                    };
                    if !responses_eq {
                        return false;
                    }
                    match (error, error2) {
                        (None, None) => true,
                        (Some(a), Some(b)) => a.eq_error(b),
                        _ => false,
                    }
                },
                _ => false,
            },
            Expression::Equals { target, value } => match other {
                Expression::Equals { target: target2, value: value2 } => target.eq_text(target2)
                    && value.eq_value(value2),
                _ => false,
            },
            Expression::GetProperty { target, field } => match other {
                Expression::GetProperty { target: target2, field: field2 } => target.eq_text(
                    target2,
                ) && field.eq_text(field2),
                _ => false,
            },
        }
    }
}

} // verus!
