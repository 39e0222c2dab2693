use vstd::prelude::*;
use crate::error::Fault;
use crate::scalar::{escape_of, is_digit, prim_value};
use crate::value::JVal;

verus! {

/// The kind of container that the parser is inside.
#[derive(Clone, Copy, Debug, PartialEq, Eq, Structural)]
pub enum Context {
    Start,
    Object,
    Array,
    Finished,
}

/// The parser's position within the grammar of the current container.
#[derive(Clone, Copy, Debug, PartialEq, Eq, Structural)]
pub enum SubState {
    Ready,
    ExpectKey,
    BuildingKey,
    KeyClosed,
    ExpectValue,
    BuildingPrimitive,
    PrimitiveClosed,
    BuildingString,
    StringClosed,
    ContainerClosed,
}

/// The model of an entry of the builder stack.
pub enum Slot {
    OpenObject,
    OpenArray,
    Value(JVal),
    Key(Seq<char>),
    Entry(Seq<char>, JVal),
}

/// The model of the parser between two characters.
pub struct Machine {
    pub stack: Seq<Slot>,
    pub sub: SubState,
    /// The characters of the key, string or primitive being read.
    pub text: Seq<char>,
    pub escape: bool,
}

/// Space, tab, carriage return or newline.
pub open spec fn is_ws(c: char) -> bool {
    c == ' ' || c == '\t' || c == '\r' || c == '\n'
}

/// A digit, `-`, or the first letter of `true`, `false` or `null`.
pub open spec fn starts_primitive(c: char) -> bool {
    is_digit(c) || c == '-' || c == 't' || c == 'f' || c == 'n'
}

/// An open-container marker.
pub open spec fn is_marker(x: Slot) -> bool {
    x is OpenObject || x is OpenArray
}

/// The kind of the innermost open container, `Finished` if there is none.
pub open spec fn open_context(stack: Seq<Slot>) -> Context
    decreases stack.len(),
{
    if stack.len() == 0 {
        Context::Finished
    } else {
        match stack.last() {
            Slot::OpenObject => Context::Object,
            Slot::OpenArray => Context::Array,
            _ => open_context(stack.drop_last()),
        }
    }
}

/// The container context, read off the builder stack.
pub open spec fn context_of(stack: Seq<Slot>) -> Context {
    if stack.len() == 0 {
        Context::Start
    } else {
        open_context(stack)
    }
}

/// Hands a finished value to the innermost container: inside an object it is
/// paired with the pending key, elsewhere it is pushed.
pub open spec fn deliver(stack: Seq<Slot>, v: JVal) -> Result<Seq<Slot>, Fault> {
    if context_of(stack) == Context::Object {
        if stack.len() > 0 && stack.last() is Key {
            Ok(stack.drop_last().push(Slot::Entry(stack.last()->Key_0, v)))
        } else {
            Err(Fault::MissingKey)
        }
    } else {
        Ok(stack.push(Slot::Value(v)))
    }
}

/// The entries above the innermost object marker, in source order, and the
/// stack below that marker.
pub open spec fn gather_members(stack: Seq<Slot>) -> Result<(Seq<Slot>, Seq<(Seq<char>, JVal)>), Fault>
    decreases stack.len(),
{
    if stack.len() == 0 {
        Err(Fault::Leftovers)
    } else {
        match stack.last() {
            Slot::OpenObject => Ok((stack.drop_last(), Seq::empty())),
            Slot::Entry(k, v) => match gather_members(stack.drop_last()) {
                Ok((rest, ms)) => Ok((rest, ms.push((k, v)))),
                Err(f) => Err(f),
            },
            _ => Err(Fault::Leftovers),
        }
    }
}

/// The values above the innermost array marker, in source order, and the
/// stack below that marker.
pub open spec fn gather_items(stack: Seq<Slot>) -> Result<(Seq<Slot>, Seq<JVal>), Fault>
    decreases stack.len(),
{
    if stack.len() == 0 {
        Err(Fault::Leftovers)
    } else {
        match stack.last() {
            Slot::OpenArray => Ok((stack.drop_last(), Seq::empty())),
            Slot::Value(v) => match gather_items(stack.drop_last()) {
                Ok((rest, vs)) => Ok((rest, vs.push(v))),
                Err(f) => Err(f),
            },
            Slot::OpenObject => Err(Fault::ObjectCloseInList),
            _ => Err(Fault::KeyInList),
        }
    }
}

/// Sets the value of key `k`: in place where the key is present, else at the end.
pub open spec fn put_member(ms: Seq<(Seq<char>, JVal)>, k: Seq<char>, v: JVal) -> Seq<(Seq<char>, JVal)> {
    if exists|i: int| 0 <= i < ms.len() && (#[trigger] ms[i]).0 == k {
        ms.update(choose|i: int| 0 <= i < ms.len() && (#[trigger] ms[i]).0 == k, (k, v))
    } else {
        ms.push((k, v))
    }
}

/// The object that members make in source order: each key keeps its first
/// place and takes its last value.
pub open spec fn build_object(ms: Seq<(Seq<char>, JVal)>) -> Seq<(Seq<char>, JVal)>
    decreases ms.len(),
{
    if ms.len() == 0 {
        Seq::empty()
    } else {
        put_member(build_object(ms.drop_last()), ms.last().0, ms.last().1)
    }
}

/// No two members share a key.
pub open spec fn keys_unique(ms: Seq<(Seq<char>, JVal)>) -> bool {
    forall|i: int, j: int| 0 <= i < j < ms.len() ==> (#[trigger] ms[i]).0 != (#[trigger] ms[j]).0
}

/// Packs the innermost object: its entries, from its marker up, are replaced
/// by the object they make, as a pending value.
pub open spec fn close_object(stack: Seq<Slot>) -> Result<Seq<Slot>, Fault> {
    match gather_members(stack) {
        Ok((rest, ms)) => Ok(rest.push(Slot::Value(JVal::Obj(build_object(ms))))),
        Err(f) => Err(f),
    }
}

/// Packs the innermost array: its values, from its marker up, are replaced by
/// the array they make, as a pending value.
pub open spec fn close_array(stack: Seq<Slot>) -> Result<Seq<Slot>, Fault> {
    match gather_items(stack) {
        Ok((rest, vs)) => Ok(rest.push(Slot::Value(JVal::Lst(vs)))),
        Err(f) => Err(f),
    }
}

/// Packs the pending value on top with the pending key below it into an entry.
pub open spec fn entry_pack(stack: Seq<Slot>) -> Result<Seq<Slot>, Fault> {
    if stack.len() == 0 || !(stack.last() is Value) {
        Err(Fault::MissingValue)
    } else if stack.len() < 2 || !(stack[stack.len() - 2] is Key) {
        Err(Fault::MissingKey)
    } else {
        Ok(
            stack.drop_last().drop_last().push(
                Slot::Entry(stack[stack.len() - 2]->Key_0, stack.last()->Value_0),
            ),
        )
    }
}

/// Closes the innermost object and hands its value to the container around it.
pub open spec fn close_object_into(stack: Seq<Slot>) -> Result<Seq<Slot>, Fault> {
    match gather_members(stack) {
        Ok((rest, ms)) => deliver(rest, JVal::Obj(build_object(ms))),
        Err(f) => Err(f),
    }
}

/// Closes the innermost array and hands its value to the container around it.
pub open spec fn close_array_into(stack: Seq<Slot>) -> Result<Seq<Slot>, Fault> {
    match gather_items(stack) {
        Ok((rest, vs)) => deliver(rest, JVal::Lst(vs)),
        Err(f) => Err(f),
    }
}

/// A machine with no text pending and no escape active.
pub open spec fn settled(stack: Seq<Slot>, sub: SubState) -> Machine {
    Machine { stack, sub, text: Seq::empty(), escape: false }
}

/// The character that closes an object (`obj`) or an array.
pub open spec fn close_char(obj: bool) -> char {
    if obj {
        '}'
    } else {
        ']'
    }
}

/// The fault for the other container's closing character.
pub open spec fn mismatch(obj: bool) -> Fault {
    if obj {
        Fault::ListCloseInObject
    } else {
        Fault::ObjectCloseInList
    }
}

/// Closes the current container; inside an object, the container's value is
/// then packed with its pending key.
pub open spec fn close_current(m: Machine, obj: bool) -> Result<Machine, Fault> {
    let r = if obj {
        close_object_into(m.stack)
    } else {
        close_array_into(m.stack)
    };
    match r {
        Ok(st) => Ok(settled(st, SubState::ContainerClosed)),
        Err(f) => Err(f),
    }
}

/// The first character of a value.
pub open spec fn begin_value(m: Machine, c: char) -> Result<Machine, Fault> {
    if c == '{' {
        Ok(settled(m.stack.push(Slot::OpenObject), SubState::Ready))
    } else if c == '[' {
        Ok(settled(m.stack.push(Slot::OpenArray), SubState::Ready))
    } else if c == '"' {
        Ok(settled(m.stack, SubState::BuildingString))
    } else if starts_primitive(c) {
        Ok(Machine { stack: m.stack, sub: SubState::BuildingPrimitive, text: seq![c], escape: false })
    } else if is_ws(c) {
        Ok(m)
    } else {
        Err(Fault::ExpectedValue)
    }
}

/// A character after a complete value.
pub open spec fn after_value(m: Machine, c: char, obj: bool) -> Result<Machine, Fault> {
    if c == ',' {
        Ok(settled(m.stack, if obj { SubState::ExpectKey } else { SubState::ExpectValue }))
    } else if c == close_char(obj) {
        close_current(m, obj)
    } else if c == close_char(!obj) {
        Err(mismatch(obj))
    } else if is_ws(c) {
        Ok(m)
    } else {
        Err(Fault::ExpectedSeparator)
    }
}

/// A character inside a quoted key (`key`) or string value.
pub open spec fn quoted_char(m: Machine, c: char, key: bool) -> Result<Machine, Fault> {
    if m.escape {
        match escape_of(c) {
            Some(e) => Ok(Machine { text: m.text.push(e), escape: false, ..m }),
            None => Err(Fault::BadEscape),
        }
    } else if c == '\\' {
        Ok(Machine { escape: true, ..m })
    } else if c == '"' {
        if key {
            Ok(settled(m.stack.push(Slot::Key(m.text)), SubState::KeyClosed))
        } else {
            match deliver(m.stack, JVal::Str(m.text)) {
                Ok(st) => Ok(settled(st, SubState::StringClosed)),
                Err(f) => Err(f),
            }
        }
    } else {
        Ok(Machine { text: m.text.push(c), ..m })
    }
}

/// A character while a primitive is being read.
pub open spec fn primitive_char(m: Machine, c: char, obj: bool) -> Result<Machine, Fault> {
    if c == close_char(!obj) {
        Err(mismatch(obj))
    } else if c == ',' || c == close_char(obj) || is_ws(c) {
        match prim_value(m.text) {
            Ok(v) => match deliver(m.stack, v) {
                Ok(st) => after_value(settled(st, SubState::PrimitiveClosed), c, obj),
                Err(f) => Err(f),
            },
            Err(f) => Err(f),
        }
    } else {
        Ok(Machine { text: m.text.push(c), ..m })
    }
}

/// One character inside an object (`obj`) or an array.
pub open spec fn step_inside(m: Machine, c: char, obj: bool) -> Result<Machine, Fault> {
    match m.sub {
        SubState::Ready => if obj {
            if c == '"' {
                Ok(settled(m.stack, SubState::BuildingKey))
            } else if c == '}' {
                close_current(m, obj)
            } else if is_ws(c) {
                Ok(m)
            } else {
                Err(Fault::ExpectedKey)
            }
        } else {
            if c == ']' {
                close_current(m, obj)
            } else {
                begin_value(m, c)
            }
        },
        SubState::ExpectKey => if !obj {
            Err(Fault::KeyInList)
        } else if c == '"' {
            Ok(settled(m.stack, SubState::BuildingKey))
        } else if is_ws(c) {
            Ok(m)
        } else {
            Err(Fault::ExpectedKey)
        },
        SubState::BuildingKey => if !obj {
            Err(Fault::KeyInList)
        } else {
            quoted_char(m, c, true)
        },
        SubState::KeyClosed => if !obj {
            Err(Fault::KeyInList)
        } else if c == ':' {
            Ok(settled(m.stack, SubState::ExpectValue))
        } else if is_ws(c) {
            Ok(m)
        } else {
            Err(Fault::ExpectedColon)
        },
        SubState::ExpectValue => begin_value(m, c),
        SubState::BuildingPrimitive => primitive_char(m, c, obj),
        SubState::BuildingString => quoted_char(m, c, false),
        _ => after_value(m, c, obj),
    }
}

/// One step of the parser on one character.
pub open spec fn step(m: Machine, c: char) -> Result<Machine, Fault> {
    match context_of(m.stack) {
        Context::Start => if c == '{' {
            Ok(settled(m.stack.push(Slot::OpenObject), SubState::Ready))
        } else if c == '[' {
            Ok(settled(m.stack.push(Slot::OpenArray), SubState::Ready))
        } else if is_ws(c) {
            Ok(m)
        } else {
            Err(Fault::ExpectedRoot)
        },
        Context::Finished => if is_ws(c) {
            Ok(m)
        } else {
            Err(Fault::TrailingCharacter)
        },
        Context::Object => step_inside(m, c, true),
        Context::Array => step_inside(m, c, false),
    }
}

/// The machine before the first character.
pub open spec fn initial() -> Machine {
    settled(Seq::empty(), SubState::Ready)
}

/// The machine after the characters of `s`, or the index of the character
/// that failed and why.
pub open spec fn run(m: Machine, s: Seq<char>) -> Result<Machine, (int, Fault)>
    decreases s.len(),
{
    if s.len() == 0 {
        Ok(m)
    } else {
        match run(m, s.drop_last()) {
            Ok(m1) => match step(m1, s.last()) {
                Ok(m2) => Ok(m2),
                Err(f) => Err((s.len() - 1, f)),
            },
            Err(e) => Err(e),
        }
    }
}

/// The result once the input is exhausted.
pub open spec fn finish(m: Machine) -> Result<JVal, Fault> {
    if context_of(m.stack) != Context::Finished {
        Err(Fault::Incomplete)
    } else if m.stack.len() != 1 {
        Err(Fault::RootCount)
    } else {
        match m.stack[0] {
            Slot::Value(v) => if v is Obj || v is Lst {
                Ok(v)
            } else {
                Err(Fault::RootNotContainer)
            },
            _ => Err(Fault::UnexpectedFinal),
        }
    }
}

/// Line (from 1) and column after the characters of `s`: a newline starts a
/// new line at column 1, any other character moves one column on.
pub open spec fn position(s: Seq<char>) -> (nat, nat)
    decreases s.len(),
{
    if s.len() == 0 {
        (1, 0)
    } else {
        let (l, c) = position(s.drop_last());
        if s.last() == '\n' {
            (l + 1, 1)
        } else {
            (l, c + 1)
        }
    }
}

/// What parsing `s` gives: the root value, or the position and the cause of
/// the first failure.
pub open spec fn parse_result(s: Seq<char>) -> Result<JVal, (nat, nat, Fault)> {
    match run(initial(), s) {
        Ok(m) => match finish(m) {
            Ok(v) => Ok(v),
            Err(f) => Err((position(s).0, position(s).1, f)),
        },
        Err((i, f)) => Err((position(s.take(i + 1)).0, position(s.take(i + 1)).1, f)),
    }
}

} // verus!
