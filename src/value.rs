use vstd::prelude::*;

verus! {

/// A JSON value as the parser builds it and the printer reads it.
#[derive(Debug, PartialEq)]
pub enum JSON {
    Int(i64),
    /// A number that is no `i64`: the literal text, which std's `f64` parser accepts.
    Flt(String),
    Str(String),
    Lst(Vec<JSON>),
    /// Members in the order in which their keys first appeared; keys are unique.
    Obj(Vec<(String, JSON)>),
    Bol(bool),
    Nul,
}

/// The mathematical model of a `JSON` value.
pub enum JVal {
    Int(int),
    Flt(Seq<char>),
    Str(Seq<char>),
    Lst(Seq<JVal>),
    Obj(Seq<(Seq<char>, JVal)>),
    Bol(bool),
    Nul,
}

impl JSON {
    /// The model of this value.
    pub open spec fn view(&self) -> JVal
        decreases self,
    {
        match self {
            JSON::Int(n) => JVal::Int(*n as int),
            JSON::Flt(t) => JVal::Flt(t@),
            JSON::Str(s) => JVal::Str(s@),
            JSON::Lst(items) => JVal::Lst(view_items(items@)),
            JSON::Obj(members) => JVal::Obj(view_members(members@)),
            JSON::Bol(b) => JVal::Bol(*b),
            JSON::Nul => JVal::Nul,
        }
    }
}

/// The models of a sequence of values, in order.
pub open spec fn view_items(items: Seq<JSON>) -> Seq<JVal>
    decreases items,
{
    if items.len() == 0 {
        Seq::empty()
    } else {
        view_items(items.drop_last()).push(items.last().view())
    }
}

/// The models of a sequence of members, in order.
pub open spec fn view_members(members: Seq<(String, JSON)>) -> Seq<(Seq<char>, JVal)>
    decreases members,
{
    if members.len() == 0 {
        Seq::empty()
    } else {
        view_members(members.drop_last()).push((members.last().0@, members.last().1.view()))
    }
}

/// The model of a sequence of values, element by element.
pub proof fn lemma_view_items(items: Seq<JSON>)
    ensures
        view_items(items).len() == items.len(),
        forall|i: int| 0 <= i < items.len() ==> #[trigger] view_items(items)[i] == items[i]@,
    decreases items.len(),
{
    if items.len() > 0 {
        lemma_view_items(items.drop_last());
    }
}

/// The model of a sequence of members, element by element.
pub proof fn lemma_view_members(members: Seq<(String, JSON)>)
    ensures
        view_members(members).len() == members.len(),
        forall|i: int|
            0 <= i < members.len() ==> #[trigger] view_members(members)[i] == (
                members[i].0@,
                members[i].1@,
            ),
    decreases members.len(),
{
    if members.len() > 0 {
        lemma_view_members(members.drop_last());
    }
}

} // verus!
