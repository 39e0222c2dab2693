use vstd::prelude::*;
use crate::laws::{all_ws, ends_primitive, lemma_run_append, lemma_run_ws};
use crate::parser::{lemma_context_push, lemma_deliver_context};
use crate::render::{
    decimal, digit_char, escaped, indent, int_text, item_lines, member_lines, quoted, text_of,
};
use crate::scalar::{all_digits, digit_value, digits_value, int_of_text, is_digit, unsigned_part};
use crate::machine::{
    build_object, close_array_into, close_object_into, context_of, deliver, gather_items, gather_members,
    initial, is_marker, is_ws, keys_unique, parse_result, run, settled,
    starts_primitive, step, Context, Machine, Slot, SubState,
};
use crate::scalar::prim_value;
use crate::value::JVal;

verus! {

/// No character of `t` ends a primitive.
pub open spec fn no_delims(t: Seq<char>) -> bool {
    forall|i: int| 0 <= i < t.len() ==> !ends_primitive(#[trigger] t[i])
}

/// What holds of every value that the parser builds: integers fit in `i64`,
/// a float's text reads back as that float and holds no delimiter, and the
/// keys of each object are unique.
pub open spec fn wf_val(v: JVal) -> bool
    decreases v,
{
    match v {
        JVal::Int(n) => i64::MIN <= n <= i64::MAX,
        JVal::Flt(t) => prim_value(t) == Ok::<JVal, crate::error::Fault>(JVal::Flt(t)) && t.len() > 0
            && starts_primitive(t[0]) && no_delims(t),
        JVal::Lst(items) => forall|i: int| 0 <= i < items.len() ==> wf_val(#[trigger] items[i]),
        JVal::Obj(ms) => keys_unique(ms) && forall|i: int|
            0 <= i < ms.len() ==> wf_val(#[trigger] ms[i].1),
        _ => true,
    }
}

/// The value that an entry of the builder stack holds is well formed.
pub open spec fn wf_slot(x: Slot) -> bool {
    match x {
        Slot::Value(v) => wf_val(v),
        Slot::Entry(_, v) => wf_val(v),
        _ => true,
    }
}

/// Every value on the stack is well formed, and a primitive being read
/// starts as a primitive starts and holds no delimiter.
pub open spec fn wf_machine(m: Machine) -> bool {
    &&& forall|i: int| 0 <= i < m.stack.len() ==> wf_slot(#[trigger] m.stack[i])
    &&& m.sub is BuildingPrimitive ==> m.text.len() > 0 && starts_primitive(m.text[0]) && no_delims(
        m.text,
    )
}

/// Every value on the stack is well formed.
pub open spec fn wf_stack(st: Seq<Slot>) -> bool {
    forall|i: int| 0 <= i < st.len() ==> wf_slot(#[trigger] st[i])
}

/// Gathering an object's entries keeps well-formed values.
proof fn lemma_gather_members_wf(st: Seq<Slot>)
    requires
        wf_stack(st),
    ensures
        gather_members(st) is Ok ==> wf_stack(gather_members(st)->Ok_0.0) && forall|i: int|
            0 <= i < gather_members(st)->Ok_0.1.len() ==> wf_val(
                #[trigger] gather_members(st)->Ok_0.1[i].1,
            ),
    decreases st.len(),
{
    if st.len() > 0 {
        assert(wf_stack(st.drop_last()));
        lemma_gather_members_wf(st.drop_last());
        assert(wf_slot(st[st.len() - 1]));
    }
}

/// Gathering an array's values keeps well-formed values.
proof fn lemma_gather_items_wf(st: Seq<Slot>)
    requires
        wf_stack(st),
    ensures
        gather_items(st) is Ok ==> wf_stack(gather_items(st)->Ok_0.0) && forall|i: int|
            0 <= i < gather_items(st)->Ok_0.1.len() ==> wf_val(
                #[trigger] gather_items(st)->Ok_0.1[i],
            ),
    decreases st.len(),
{
    if st.len() > 0 {
        assert(wf_stack(st.drop_last()));
        lemma_gather_items_wf(st.drop_last());
        assert(wf_slot(st[st.len() - 1]));
    }
}

/// The object that well-formed members make has unique keys and well-formed values.
proof fn lemma_build_object_wf(ms: Seq<(Seq<char>, JVal)>)
    requires
        forall|i: int| 0 <= i < ms.len() ==> wf_val(#[trigger] ms[i].1),
    ensures
        keys_unique(build_object(ms)),
        forall|i: int| 0 <= i < build_object(ms).len() ==> wf_val(#[trigger] build_object(ms)[i].1),
    decreases ms.len(),
{
    if ms.len() > 0 {
        let prev = ms.drop_last();
        assert forall|i: int| 0 <= i < prev.len() implies wf_val(#[trigger] prev[i].1) by {
            assert(prev[i] == ms[i]);
        }
        lemma_build_object_wf(prev);
        let b = build_object(prev);
        let k = ms.last().0;
        let v = ms.last().1;
        assert(wf_val(ms[ms.len() - 1].1));
        if exists|i: int| 0 <= i < b.len() && (#[trigger] b[i]).0 == k {
            let j = choose|i: int| 0 <= i < b.len() && (#[trigger] b[i]).0 == k;
            let r = b.update(j, (k, v));
            assert(build_object(ms) == r);
            assert forall|x: int, y: int| 0 <= x < y < r.len() implies (#[trigger] r[x]).0 != (
            #[trigger] r[y]).0 by {
                assert(b[x].0 == r[x].0 && b[y].0 == r[y].0);
            }
        } else {
            let r = b.push((k, v));
            assert(build_object(ms) == r);
            assert forall|x: int, y: int| 0 <= x < y < r.len() implies (#[trigger] r[x]).0 != (
            #[trigger] r[y]).0 by {
                if y == b.len() {
                    assert(r[x] == b[x]);
                } else {
                    assert(r[x] == b[x] && r[y] == b[y]);
                }
            }
        }
    }
}

/// Handing a well-formed value to a container keeps the stack well formed.
proof fn lemma_deliver_wf(st: Seq<Slot>, v: JVal)
    requires
        wf_stack(st),
        wf_val(v),
    ensures
        deliver(st, v) is Ok ==> wf_stack(deliver(st, v)->Ok_0),
{
    if deliver(st, v) is Ok {
        let r = deliver(st, v)->Ok_0;
        assert forall|i: int| 0 <= i < r.len() implies wf_slot(#[trigger] r[i]) by {
            if i < st.len() - 1 {
                assert(r[i] == st[i]);
            } else if i == st.len() - 1 && i < r.len() - 1 {
                assert(r[i] == st[i]);
            }
        }
    }
}

/// Closing a container keeps the stack well formed.
proof fn lemma_close_wf(st: Seq<Slot>)
    requires
        wf_stack(st),
    ensures
        close_object_into(st) is Ok ==> wf_stack(close_object_into(st)->Ok_0),
        close_array_into(st) is Ok ==> wf_stack(close_array_into(st)->Ok_0),
{
    lemma_gather_members_wf(st);
    lemma_gather_items_wf(st);
    if gather_members(st) is Ok {
        let (rest, ms) = gather_members(st)->Ok_0;
        lemma_build_object_wf(ms);
        lemma_deliver_wf(rest, JVal::Obj(build_object(ms)));
    }
    if gather_items(st) is Ok {
        let (rest, vs) = gather_items(st)->Ok_0;
        lemma_deliver_wf(rest, JVal::Lst(vs));
    }
}

/// Each step keeps the machine well formed.
proof fn lemma_step_wf(m: Machine, c: char)
    requires
        wf_machine(m),
    ensures
        step(m, c) is Ok ==> wf_machine(step(m, c)->Ok_0),
{
    let st = m.stack;
    assert(wf_stack(st));
    lemma_close_wf(st);
    assert forall|x: Slot| !(x is Value) && !(x is Entry) implies wf_stack(#[trigger] st.push(x)) by {
        assert forall|i: int| 0 <= i < st.push(x).len() implies wf_slot(#[trigger] st.push(x)[i]) by {
            if i < st.len() {
                assert(st.push(x)[i] == st[i]);
            }
        }
    }
    lemma_deliver_wf(st, JVal::Str(m.text));
    match prim_value(m.text) {
        Ok(v) => {
            if m.sub is BuildingPrimitive {
                assert(wf_val(v));
                lemma_deliver_wf(st, v);
                if deliver(st, v) is Ok {
                    lemma_close_wf(deliver(st, v)->Ok_0);
                }
            }
        },
        Err(_) => {},
    }
    if step(m, c) is Ok {
        let m2 = step(m, c)->Ok_0;
        if m2.sub is BuildingPrimitive && m.sub is BuildingPrimitive {
            assert forall|i: int| 0 <= i < m2.text.len() implies !ends_primitive(#[trigger] m2.text[i]) by {
                if i < m.text.len() {
                    assert(m2.text[i] == m.text[i]);
                }
            }
        }
    }
}

/// Every machine that the parser reaches is well formed.
proof fn lemma_run_wf(s: Seq<char>)
    ensures
        run(initial(), s) is Ok ==> wf_machine(run(initial(), s)->Ok_0),
    decreases s.len(),
{
    if s.len() > 0 {
        lemma_run_wf(s.drop_last());
        if run(initial(), s.drop_last()) is Ok {
            lemma_step_wf(run(initial(), s.drop_last())->Ok_0, s.last());
        }
    }
}

/// The decimal digits of a number spell that number, without leading zeros.
proof fn lemma_decimal(m: nat)
    ensures
        decimal(m).len() >= 1,
        all_digits(decimal(m)),
        digits_value(decimal(m)) == m,
        decimal(m)[0] == '0' ==> m == 0 && decimal(m).len() == 1,
    decreases m,
{
    if m >= 10 {
        lemma_decimal(m / 10);
        let p = decimal(m / 10);
        let d = (m % 10) as int;
        assert(digit_value(digit_char(d)) == d && is_digit(digit_char(d)));
        assert(decimal(m) == p.push(digit_char(d)));
        assert(decimal(m).drop_last() =~= p);
        assert(decimal(m).last() == digit_char(d));
        vstd::arithmetic::div_mod::lemma_fundamental_div_mod(m as int, 10);
        assert(digits_value(p) == m / 10);
        assert(m as int == 10 * ((m as int) / 10) + (m as int) % 10);
        assert(digits_value(decimal(m)) == digits_value(p) * 10 + d);
        assert(digits_value(p) * 10 + d == m);
        assert(decimal(m)[0] == p[0]);
        assert forall|i: int| 0 <= i < decimal(m).len() implies is_digit(#[trigger] decimal(m)[i]) by {
            if i < p.len() {
                assert(decimal(m)[i] == p[i]);
            }
        }
    } else {
        assert(digit_value(digit_char(m as int)) == m && is_digit(digit_char(m as int)));
        assert(decimal(m).drop_last() =~= Seq::<char>::empty());
        assert(decimal(m).last() == digit_char(m as int));
        assert(digits_value(decimal(m).drop_last()) == 0);
    }
}

/// An `i64` written in decimal reads back as itself.
proof fn lemma_int_text(n: int)
    requires
        i64::MIN <= n <= i64::MAX,
    ensures
        prim_value(int_text(n)) == Ok::<JVal, crate::error::Fault>(JVal::Int(n)),
        int_text(n).len() > 0,
        starts_primitive(int_text(n)[0]),
        no_delims(int_text(n)),
{
    let t = int_text(n);
    if n < 0 {
        lemma_decimal((-n) as nat);
        let d = decimal((-n) as nat);
        assert(t.drop_first() =~= d);
        assert(unsigned_part(t) == d);
        assert forall|i: int| 0 <= i < t.len() implies !ends_primitive(#[trigger] t[i]) by {
            if i > 0 {
                assert(t[i] == d[i - 1]);
            }
        }
        assert(int_of_text(t) == Some(n));
    } else {
        lemma_decimal(n as nat);
        assert(is_digit(t[0]));
        assert(unsigned_part(t) == t);
        assert forall|i: int| 0 <= i < t.len() implies !ends_primitive(#[trigger] t[i]) by {
            assert(is_digit(t[i]));
        }
        assert(int_of_text(t) == Some(n));
        assert(t.len() >= 2 ==> t[0] != '0');
    }
    assert(t != seq!['n', 'u', 'l', 'l']);
    assert(t != seq!['t', 'r', 'u', 'e']);
    assert(t != seq!['f', 'a', 'l', 's', 'e']);
}

/// The stack entries that an array's values become.
pub open spec fn item_slots(items: Seq<JVal>) -> Seq<Slot> {
    Seq::new(items.len(), |i: int| Slot::Value(items[i]))
}

/// The stack entries that an object's members become.
pub open spec fn member_slots(ms: Seq<(Seq<char>, JVal)>) -> Seq<Slot> {
    Seq::new(ms.len(), |i: int| Slot::Entry(ms[i].0, ms[i].1))
}

/// Gathering an array's values gives them back in order.
proof fn lemma_gather_item_slots(st: Seq<Slot>, items: Seq<JVal>)
    ensures
        gather_items(st.push(Slot::OpenArray) + item_slots(items)) == Ok::<
            (Seq<Slot>, Seq<JVal>),
            crate::error::Fault,
        >((st, items)),
    decreases items.len(),
{
    let full = st.push(Slot::OpenArray) + item_slots(items);
    if items.len() == 0 {
        assert(items =~= Seq::<JVal>::empty());
        assert(full =~= st.push(Slot::OpenArray));
        assert(full.drop_last() =~= st);
    } else {
        lemma_gather_item_slots(st, items.drop_last());
        assert(full.drop_last() =~= st.push(Slot::OpenArray) + item_slots(items.drop_last()));
        assert(full.last() == Slot::Value(items.last()));
        assert(items.drop_last().push(items.last()) =~= items);
    }
}

/// Gathering an object's entries gives them back in order.
proof fn lemma_gather_member_slots(st: Seq<Slot>, ms: Seq<(Seq<char>, JVal)>)
    ensures
        gather_members(st.push(Slot::OpenObject) + member_slots(ms)) == Ok::<
            (Seq<Slot>, Seq<(Seq<char>, JVal)>),
            crate::error::Fault,
        >((st, ms)),
    decreases ms.len(),
{
    let full = st.push(Slot::OpenObject) + member_slots(ms);
    if ms.len() == 0 {
        assert(ms =~= Seq::<(Seq<char>, JVal)>::empty());
        assert(full =~= st.push(Slot::OpenObject));
        assert(full.drop_last() =~= st);
    } else {
        lemma_gather_member_slots(st, ms.drop_last());
        assert(full.drop_last() =~= st.push(Slot::OpenObject) + member_slots(ms.drop_last()));
        assert(full.last() == Slot::Entry(ms.last().0, ms.last().1));
        assert(ms.drop_last().push(ms.last()) =~= ms);
    }
}

/// Members with unique keys make an object of those members, in order.
proof fn lemma_build_unique(ms: Seq<(Seq<char>, JVal)>)
    requires
        keys_unique(ms),
    ensures
        build_object(ms) == ms,
    decreases ms.len(),
{
    if ms.len() > 0 {
        let prev = ms.drop_last();
        assert(keys_unique(prev)) by {
            assert forall|i: int, j: int| 0 <= i < j < prev.len() implies (#[trigger] prev[i]).0 != (
            #[trigger] prev[j]).0 by {
                assert(prev[i] == ms[i] && prev[j] == ms[j]);
            }
        }
        lemma_build_unique(prev);
        let k = ms.last().0;
        assert(!exists|i: int| 0 <= i < prev.len() && (#[trigger] prev[i]).0 == k) by {
            assert forall|i: int| 0 <= i < prev.len() implies (#[trigger] prev[i]).0 != k by {
                assert(prev[i] == ms[i]);
            }
        }
        assert(prev.push((k, ms.last().1)) =~= ms);
    }
}

/// Pushing entries that are no markers keeps the context.
proof fn lemma_context_slots(st: Seq<Slot>, xs: Seq<Slot>)
    requires
        st.len() > 0,
        forall|i: int| 0 <= i < xs.len() ==> !is_marker(#[trigger] xs[i]),
    ensures
        context_of(st + xs) == context_of(st),
    decreases xs.len(),
{
    if xs.len() > 0 {
        lemma_context_slots(st, xs.drop_last());
        assert((st + xs).drop_last() =~= st + xs.drop_last());
        assert(!is_marker(xs[xs.len() - 1]));
    } else {
        assert(st + xs =~= st);
    }
}

/// The machine waits for a value: after `:` inside an object, or inside an
/// array at its start or after `,`.
pub open spec fn expects_value(m: Machine) -> bool {
    ||| context_of(m.stack) == Context::Object && m.sub is ExpectValue && m.stack.len() > 0
        && m.stack.last() is Key
    ||| context_of(m.stack) == Context::Array && (m.sub is ExpectValue || m.sub is Ready)
}

/// The characters of a primitive are gathered as its text.
proof fn lemma_prim_run(m: Machine, t: Seq<char>)
    requires
        expects_value(m),
        t.len() > 0,
        starts_primitive(t[0]),
        no_delims(t),
    ensures
        run(m, t) == Ok::<Machine, (int, crate::error::Fault)>(
            Machine { stack: m.stack, sub: SubState::BuildingPrimitive, text: t, escape: false },
        ),
    decreases t.len(),
{
    if t.len() == 1 {
        assert(t.drop_last() =~= Seq::<char>::empty());
        assert(run(m, t.drop_last()) == Ok::<Machine, (int, crate::error::Fault)>(m));
        assert(seq![t[0]] =~= t);
        assert(!ends_primitive(t[0]));
    } else {
        let p = t.drop_last();
        assert(p[0] == t[0]);
        assert forall|i: int| 0 <= i < p.len() implies !ends_primitive(#[trigger] p[i]) by {
            assert(p[i] == t[i]);
        }
        lemma_prim_run(m, p);
        assert(!ends_primitive(t[t.len() - 1]));
        assert(p.push(t.last()) =~= t);
    }
}

/// Inside a quoted key or string, the escaped text of `s` adds `s` to what
/// has been read.
proof fn lemma_quoted_run(m: Machine, s: Seq<char>)
    requires
        !m.escape,
        (m.sub is BuildingString && (context_of(m.stack) == Context::Object || context_of(m.stack)
            == Context::Array)) || (m.sub is BuildingKey && context_of(m.stack) == Context::Object),
    ensures
        run(m, escaped(s)) == Ok::<Machine, (int, crate::error::Fault)>(
            Machine { text: m.text + s, ..m },
        ),
    decreases s.len(),
{
    if s.len() == 0 {
        assert(escaped(s) =~= Seq::<char>::empty());
        assert(m.text + s =~= m.text);
    } else {
        let p = s.drop_last();
        let c = s.last();
        lemma_quoted_run(m, p);
        let mp = Machine { text: m.text + p, ..m };
        if c == '"' || c == '\\' {
            lemma_run_append(m, escaped(p), seq!['\\', c]);
            let x = seq!['\\', c];
            assert(x.drop_last() =~= seq!['\\']);
            assert(seq!['\\'].drop_last() =~= Seq::<char>::empty());
            assert(run(mp, seq!['\\'].drop_last()) == Ok::<Machine, (int, crate::error::Fault)>(mp));
            assert(run(mp, seq!['\\']) == Ok::<Machine, (int, crate::error::Fault)>(Machine { escape: true, ..mp }));
        } else {
            assert(escaped(s) == escaped(p).push(c));
            assert(escaped(s).drop_last() =~= escaped(p));
        }
        assert((m.text + p).push(c) =~= m.text + s);
    }
}

/// An indent made of whitespace units is whitespace.
proof fn lemma_indent_ws(ind: Seq<char>, n: nat)
    requires
        all_ws(ind),
    ensures
        all_ws(indent(ind, n)),
    decreases n,
{
    if n > 0 {
        lemma_indent_ws(ind, (n - 1) as nat);
        let p = indent(ind, (n - 1) as nat);
        assert forall|i: int| 0 <= i < indent(ind, n).len() implies is_ws(#[trigger] indent(ind, n)[i]) by {
            if i < p.len() {
                assert(indent(ind, n)[i] == p[i]);
            } else {
                assert(indent(ind, n)[i] == ind[i - p.len()]);
            }
        }
    }
}

/// Two runs that succeed one after the other make one run.
proof fn lemma_chain(m: Machine, x: Seq<char>, y: Seq<char>, m1: Machine, m2: Machine)
    requires
        run(m, x) == Ok::<Machine, (int, crate::error::Fault)>(m1),
        run(m1, y) == Ok::<Machine, (int, crate::error::Fault)>(m2),
    ensures
        run(m, x + y) == Ok::<Machine, (int, crate::error::Fault)>(m2),
{
    lemma_run_append(m, x, y);
}

/// Running on one character is one step.
proof fn lemma_run_one(m: Machine, c: char)
    ensures
        run(m, seq![c]) == (match step(m, c) {
            Ok(m1) => Ok(m1),
            Err(f) => Err::<Machine, (int, crate::error::Fault)>((0, f)),
        }),
{
    assert(seq![c].drop_last() =~= Seq::<char>::empty());
    assert(run(m, seq![c].drop_last()) == Ok::<Machine, (int, crate::error::Fault)>(m));
}

/// Running on one more character is one more step.
proof fn lemma_run_push(m: Machine, x: Seq<char>, c: char)
    ensures
        run(m, x.push(c)) == (match run(m, x) {
            Ok(m1) => match step(m1, c) {
                Ok(m2) => Ok(m2),
                Err(f) => Err((x.len() as int, f)),
            },
            Err(e) => Err(e),
        }),
{
    assert(x.push(c).drop_last() =~= x);
}

/// The machine can read value `v` from here: it waits for a value, or it is
/// at the start and `v` is a container.
pub open spec fn value_start(m: Machine, v: JVal) -> bool {
    expects_value(m) || (m.stack.len() == 0 && (v is Lst || v is Obj))
}

/// The sub-state after a complete value of this kind.
pub open spec fn closed_sub(v: JVal) -> SubState {
    match v {
        JVal::Str(_) => SubState::StringClosed,
        JVal::Lst(_) => SubState::ContainerClosed,
        JVal::Obj(_) => SubState::ContainerClosed,
        _ => SubState::PrimitiveClosed,
    }
}

/// The machine once value `v` is complete and handed to its container.
pub open spec fn after(m: Machine, v: JVal) -> Machine {
    settled(deliver(m.stack, v)->Ok_0, closed_sub(v))
}

/// The characters that the printer writes right after a value inside a container.
pub open spec fn is_sep(c: char) -> bool {
    c == ',' || c == '\n'
}

/// A primitive's text and the separator after it hand its value to the container.
proof fn lemma_prim_value(m: Machine, v: JVal, t: Seq<char>, c: char)
    requires
        expects_value(m),
        t.len() > 0,
        starts_primitive(t[0]),
        no_delims(t),
        prim_value(t) == Ok::<JVal, crate::error::Fault>(v),
        closed_sub(v) == SubState::PrimitiveClosed,
        is_sep(c),
    ensures
        deliver(m.stack, v) is Ok,
        context_of(after(m, v).stack) == context_of(m.stack),
        step(after(m, v), c) is Ok,
        run(m, t.push(c)) == Ok::<Machine, (int, crate::error::Fault)>(step(after(m, v), c)->Ok_0),
{
    lemma_prim_run(m, t);
    lemma_run_push(m, t, c);
    lemma_deliver_context(m.stack, v);
}

/// The printed text of a scalar, and the separator after it, hand the scalar
/// to the container.
proof fn lemma_scalar_text(m: Machine, v: JVal, d: nat, ind: Seq<char>, c: char)
    requires
        expects_value(m),
        wf_val(v),
        !(v is Lst || v is Obj),
        is_sep(c),
    ensures
        deliver(m.stack, v) is Ok,
        step(after(m, v), c) is Ok,
        run(m, text_of(v, d, ind).push(c)) == Ok::<Machine, (int, crate::error::Fault)>(
            step(after(m, v), c)->Ok_0,
        ),
{
    lemma_deliver_context(m.stack, v);
    match v {
        JVal::Int(n) => {
            lemma_int_text(n);
            lemma_prim_value(m, v, int_text(n), c);
        },
        JVal::Flt(t) => {
            lemma_prim_value(m, v, t, c);
        },
        JVal::Bol(b) => {
            let t = text_of(v, d, ind);
            assert forall|i: int| 0 <= i < t.len() implies !ends_primitive(#[trigger] t[i]) by {}
            lemma_prim_value(m, v, t, c);
        },
        JVal::Nul => {
            let t = text_of(v, d, ind);
            assert forall|i: int| 0 <= i < t.len() implies !ends_primitive(#[trigger] t[i]) by {}
            lemma_prim_value(m, v, t, c);
        },
        JVal::Str(s) => {
            let ms = settled(m.stack, SubState::BuildingString);
            lemma_run_one(m, '"');
            lemma_quoted_run(ms, s);
            lemma_chain(m, seq!['"'], escaped(s), ms, Machine { text: s, ..ms });
            assert(Seq::<char>::empty() + s =~= s);
            lemma_run_push(m, seq!['"'] + escaped(s), '"');
            assert((seq!['"'] + escaped(s)).push('"') =~= quoted(s));
            lemma_run_push(m, quoted(s), c);
        },
        _ => {},
    }
}

/// An opening bracket and the newline after it open a container.
proof fn lemma_open(m: Machine, v: JVal, x: Slot, open: char)
    requires
        value_start(m, v),
        (x is OpenArray && open == '[') || (x is OpenObject && open == '{'),
    ensures
        run(m, seq![open, '\n']) == Ok::<Machine, (int, crate::error::Fault)>(
            settled(m.stack.push(x), SubState::Ready),
        ),
{
    lemma_context_push(m.stack, x);
    lemma_run_one(m, open);
    lemma_run_push(m, seq![open], '\n');
    assert(seq![open].push('\n') =~= seq![open, '\n']);
}

/// The printed text of an array makes that array, given what its lines make.
proof fn lemma_array_text(m: Machine, items: Seq<JVal>, d: nat, ind: Seq<char>)
    requires
        value_start(m, JVal::Lst(items)),
        all_ws(ind),
        items.len() > 0 ==> run(settled(m.stack.push(Slot::OpenArray), SubState::Ready), item_lines(items, d, ind).push('\n'))
            == Ok::<Machine, (int, crate::error::Fault)>(
            settled(m.stack.push(Slot::OpenArray) + item_slots(items), closed_sub(items.last())),
        ),
    ensures
        deliver(m.stack, JVal::Lst(items)) is Ok,
        run(m, text_of(JVal::Lst(items), d, ind)) == Ok::<Machine, (int, crate::error::Fault)>(
            after(m, JVal::Lst(items)),
        ),
{
    let v = JVal::Lst(items);
    let a = m.stack.push(Slot::OpenArray);
    let m0 = settled(a, SubState::Ready);
    lemma_open(m, v, Slot::OpenArray, '[');
    lemma_context_push(m.stack, Slot::OpenArray);
    lemma_indent_ws(ind, d);
    lemma_gather_item_slots(m.stack, items);
    if items.len() == 0 {
        assert(item_slots(items) =~= Seq::<Slot>::empty());
        assert(a + item_slots(items) =~= a);
        lemma_run_ws(m0, indent(ind, d));
        lemma_chain(m, seq!['[', '\n'], indent(ind, d), m0, m0);
        lemma_run_push(m, seq!['[', '\n'] + indent(ind, d), ']');
        assert(text_of(v, d, ind) =~= (seq!['[', '\n'] + indent(ind, d)).push(']'));
    } else {
        let mc = settled(a + item_slots(items), closed_sub(items.last()));
        assert forall|i: int| 0 <= i < item_slots(items).len() implies !is_marker(#[trigger] item_slots(items)[i]) by {}
        lemma_context_slots(a, item_slots(items));
        let body = item_lines(items, d, ind).push('\n');
        lemma_chain(m, seq!['[', '\n'], body, m0, mc);
        lemma_run_ws(mc, indent(ind, d));
        lemma_chain(m, seq!['[', '\n'] + body, indent(ind, d), mc, mc);
        lemma_run_push(m, seq!['[', '\n'] + body + indent(ind, d), ']');
        assert(text_of(v, d, ind) =~= (seq!['[', '\n'] + body + indent(ind, d)).push(']'));
    }
}

/// The printed text of an object makes that object, given what its lines make.
proof fn lemma_object_text(m: Machine, ms: Seq<(Seq<char>, JVal)>, d: nat, ind: Seq<char>)
    requires
        value_start(m, JVal::Obj(ms)),
        all_ws(ind),
        keys_unique(ms),
        ms.len() > 0 ==> run(settled(m.stack.push(Slot::OpenObject), SubState::Ready), member_lines(ms, d, ind).push('\n'))
            == Ok::<Machine, (int, crate::error::Fault)>(
            settled(m.stack.push(Slot::OpenObject) + member_slots(ms), closed_sub(ms.last().1)),
        ),
    ensures
        deliver(m.stack, JVal::Obj(ms)) is Ok,
        run(m, text_of(JVal::Obj(ms), d, ind)) == Ok::<Machine, (int, crate::error::Fault)>(
            after(m, JVal::Obj(ms)),
        ),
{
    let v = JVal::Obj(ms);
    let a = m.stack.push(Slot::OpenObject);
    let m0 = settled(a, SubState::Ready);
    lemma_open(m, v, Slot::OpenObject, '{');
    lemma_context_push(m.stack, Slot::OpenObject);
    lemma_indent_ws(ind, d);
    lemma_gather_member_slots(m.stack, ms);
    lemma_build_unique(ms);
    if ms.len() == 0 {
        assert(member_slots(ms) =~= Seq::<Slot>::empty());
        assert(a + member_slots(ms) =~= a);
        lemma_run_ws(m0, indent(ind, d));
        lemma_chain(m, seq!['{', '\n'], indent(ind, d), m0, m0);
        lemma_run_push(m, seq!['{', '\n'] + indent(ind, d), '}');
        assert(text_of(v, d, ind) =~= (seq!['{', '\n'] + indent(ind, d)).push('}'));
    } else {
        let mc = settled(a + member_slots(ms), closed_sub(ms.last().1));
        assert forall|i: int| 0 <= i < member_slots(ms).len() implies !is_marker(#[trigger] member_slots(ms)[i]) by {}
        lemma_context_slots(a, member_slots(ms));
        let body = member_lines(ms, d, ind).push('\n');
        lemma_chain(m, seq!['{', '\n'], body, m0, mc);
        lemma_run_ws(mc, indent(ind, d));
        lemma_chain(m, seq!['{', '\n'] + body, indent(ind, d), mc, mc);
        lemma_run_push(m, seq!['{', '\n'] + body + indent(ind, d), '}');
        assert(text_of(v, d, ind) =~= (seq!['{', '\n'] + body + indent(ind, d)).push('}'));
    }
}

/// Reading the printed text of a well-formed value hands that value to the
/// container, or makes it the root.
proof fn lemma_value(m: Machine, v: JVal, d: nat, ind: Seq<char>, c: char)
    requires
        value_start(m, v),
        wf_val(v),
        all_ws(ind),
        is_sep(c),
    ensures
        deliver(m.stack, v) is Ok,
        m.stack.len() > 0 ==> context_of(after(m, v).stack) == context_of(m.stack),
        (v is Lst || v is Obj) ==> run(m, text_of(v, d, ind)) == Ok::<Machine, (int, crate::error::Fault)>(after(m, v)),
        expects_value(m) ==> step(after(m, v), c) is Ok && run(m, text_of(v, d, ind).push(c)) == Ok::<
            Machine,
            (int, crate::error::Fault),
        >(step(after(m, v), c)->Ok_0),
    decreases v,
{
    if m.stack.len() > 0 {
        lemma_deliver_context(m.stack, v);
    }
    match v {
        JVal::Lst(items) => {
            if items.len() > 0 {
                lemma_items(m.stack, items, d, ind, '\n');
                lemma_context_push(m.stack, Slot::OpenArray);
                assert forall|i: int| 0 <= i < item_slots(items).len() implies !is_marker(#[trigger] item_slots(items)[i]) by {}
                lemma_context_slots(m.stack.push(Slot::OpenArray), item_slots(items));
            }
            lemma_array_text(m, items, d, ind);
            lemma_run_push(m, text_of(v, d, ind), c);
        },
        JVal::Obj(ms) => {
            if ms.len() > 0 {
                lemma_members(m.stack, ms, d, ind, '\n');
                lemma_context_push(m.stack, Slot::OpenObject);
                assert forall|i: int| 0 <= i < member_slots(ms).len() implies !is_marker(#[trigger] member_slots(ms)[i]) by {}
                lemma_context_slots(m.stack.push(Slot::OpenObject), member_slots(ms));
            }
            lemma_object_text(m, ms, d, ind);
            lemma_run_push(m, text_of(v, d, ind), c);
        },
        _ => {
            lemma_scalar_text(m, v, d, ind, c);
        },
    }
}

/// Reading the lines of an array's values pushes those values in order.
proof fn lemma_items(st: Seq<Slot>, items: Seq<JVal>, d: nat, ind: Seq<char>, c: char)
    requires
        items.len() > 0,
        forall|i: int| 0 <= i < items.len() ==> wf_val(#[trigger] items[i]),
        all_ws(ind),
        is_sep(c),
    ensures
        step(settled(st.push(Slot::OpenArray) + item_slots(items), closed_sub(items.last())), c) is Ok,
        run(settled(st.push(Slot::OpenArray), SubState::Ready), item_lines(items, d, ind).push(c))
            == Ok::<Machine, (int, crate::error::Fault)>(
            step(settled(st.push(Slot::OpenArray) + item_slots(items), closed_sub(items.last())), c)->Ok_0,
        ),
    decreases items,
{
    let a = st.push(Slot::OpenArray);
    let m0 = settled(a, SubState::Ready);
    let last = items.last();
    assert(wf_val(items[items.len() - 1]));
    lemma_context_push(st, Slot::OpenArray);
    lemma_indent_ws(ind, d + 1);
    let text = text_of(last, d + 1, ind);
    if items.len() == 1 {
        lemma_run_ws(m0, indent(ind, d + 1));
        lemma_value(m0, last, d + 1, ind, c);
        assert(a + item_slots(items) =~= a.push(Slot::Value(last)));
        lemma_run_append(m0, indent(ind, d + 1), text.push(c));
        assert(item_lines(items, d, ind).push(c) =~= indent(ind, d + 1) + text.push(c));
    } else {
        let prev = items.drop_last();
        assert forall|i: int| 0 <= i < prev.len() implies wf_val(#[trigger] prev[i]) by {
            assert(prev[i] == items[i]);
        }
        lemma_items(st, prev, d, ind, ',');
        let b = a + item_slots(prev);
        assert forall|i: int| 0 <= i < item_slots(prev).len() implies !is_marker(#[trigger] item_slots(prev)[i]) by {}
        lemma_context_slots(a, item_slots(prev));
        let mk = settled(b, SubState::ExpectValue);
        let ws = seq!['\n'] + indent(ind, d + 1);
        assert(all_ws(ws)) by {
            assert forall|i: int| 0 <= i < ws.len() implies is_ws(#[trigger] ws[i]) by {
                if i > 0 {
                    assert(ws[i] == indent(ind, d + 1)[i - 1]);
                }
            }
        }
        lemma_run_ws(mk, ws);
        let head = item_lines(prev, d, ind).push(',');
        lemma_chain(m0, head, ws, mk, mk);
        lemma_value(mk, last, d + 1, ind, c);
        assert(b.push(Slot::Value(last)) =~= a + item_slots(items));
        lemma_run_append(m0, head + ws, text.push(c));
        assert(item_lines(items, d, ind).push(c) =~= head + ws + text.push(c));
    }
}

/// The steps around a member's key.
proof fn lemma_key_steps(b: Seq<Slot>, k: Seq<char>)
    requires
        b.len() > 0,
        context_of(b) == Context::Object,
    ensures
        step(settled(b, SubState::Ready), '"') == Ok::<Machine, crate::error::Fault>(
            settled(b, SubState::BuildingKey),
        ),
        step(settled(b, SubState::ExpectKey), '"') == Ok::<Machine, crate::error::Fault>(
            settled(b, SubState::BuildingKey),
        ),
        step(Machine { text: k, ..settled(b, SubState::BuildingKey) }, '"') == Ok::<
            Machine,
            crate::error::Fault,
        >(settled(b.push(Slot::Key(k)), SubState::KeyClosed)),
        step(settled(b.push(Slot::Key(k)), SubState::KeyClosed), ':') == Ok::<
            Machine,
            crate::error::Fault,
        >(settled(b.push(Slot::Key(k)), SubState::ExpectValue)),
        step(settled(b.push(Slot::Key(k)), SubState::ExpectValue), ' ') == Ok::<
            Machine,
            crate::error::Fault,
        >(settled(b.push(Slot::Key(k)), SubState::ExpectValue)),
{
    lemma_context_push(b, Slot::Key(k));
}

/// Reading a member's indent, key, colon and space leaves the key pending.
proof fn lemma_member_key(
    m0: Machine,
    head: Seq<char>,
    r: Machine,
    b: Seq<Slot>,
    k: Seq<char>,
    d: nat,
    ind: Seq<char>,
)
    requires
        run(m0, head) == Ok::<Machine, (int, crate::error::Fault)>(r),
        r == settled(b, SubState::Ready) || r == settled(b, SubState::ExpectKey),
        b.len() > 0,
        context_of(b) == Context::Object,
        all_ws(indent(ind, d + 1)),
    ensures
        run(m0, head + indent(ind, d + 1) + quoted(k) + seq![':', ' ']) == Ok::<
            Machine,
            (int, crate::error::Fault),
        >(settled(b.push(Slot::Key(k)), SubState::ExpectValue)),
{
    lemma_key_steps(b, k);
    lemma_run_ws(r, indent(ind, d + 1));
    lemma_chain(m0, head, indent(ind, d + 1), r, r);
    let rk = settled(b, SubState::BuildingKey);
    let x0 = head + indent(ind, d + 1);
    lemma_run_push(m0, x0, '"');
    lemma_quoted_run(rk, k);
    assert(Seq::<char>::empty() + k =~= k);
    lemma_chain(m0, x0.push('"'), escaped(k), rk, Machine { text: k, ..rk });
    let x1 = x0.push('"') + escaped(k);
    lemma_run_push(m0, x1, '"');
    lemma_run_push(m0, x1.push('"'), ':');
    lemma_run_push(m0, x1.push('"').push(':'), ' ');
    assert(x1.push('"').push(':').push(' ') =~= head + indent(ind, d + 1) + quoted(k) + seq![':', ' ']);
}

/// A member's line split at its value.
proof fn lemma_member_split(ms: Seq<(Seq<char>, JVal)>, d: nat, ind: Seq<char>, c: char)
    requires
        ms.len() > 0,
    ensures
        member_lines(ms, d, ind).push(c) =~= (if ms.len() == 1 {
            Seq::<char>::empty()
        } else {
            member_lines(ms.drop_last(), d, ind).push(',').push('\n')
        }) + indent(ind, d + 1) + quoted(ms.last().0) + seq![':', ' '] + text_of(ms.last().1, d + 1, ind).push(c),
{
}

/// Reading the lines of an object's members pushes those members as entries, in order.
proof fn lemma_members(st: Seq<Slot>, ms: Seq<(Seq<char>, JVal)>, d: nat, ind: Seq<char>, c: char)
    requires
        ms.len() > 0,
        forall|i: int| 0 <= i < ms.len() ==> wf_val(#[trigger] ms[i].1),
        all_ws(ind),
        is_sep(c),
    ensures
        step(settled(st.push(Slot::OpenObject) + member_slots(ms), closed_sub(ms.last().1)), c) is Ok,
        run(settled(st.push(Slot::OpenObject), SubState::Ready), member_lines(ms, d, ind).push(c))
            == Ok::<Machine, (int, crate::error::Fault)>(
            step(settled(st.push(Slot::OpenObject) + member_slots(ms), closed_sub(ms.last().1)), c)->Ok_0,
        ),
    decreases ms,
{
    let a = st.push(Slot::OpenObject);
    let m0 = settled(a, SubState::Ready);
    let k = ms.last().0;
    let v = ms.last().1;
    assert(wf_val(ms[ms.len() - 1].1));
    lemma_context_push(st, Slot::OpenObject);
    lemma_indent_ws(ind, d + 1);
    let text = text_of(v, d + 1, ind);
    let prev = ms.drop_last();
    let b = a + member_slots(prev);
    assert forall|i: int| 0 <= i < member_slots(prev).len() implies !is_marker(#[trigger] member_slots(prev)[i]) by {}
    lemma_context_slots(a, member_slots(prev));
    // the state from which the member's line is read, and what comes before it
    let r = if ms.len() == 1 {
        m0
    } else {
        settled(b, SubState::ExpectKey)
    };
    let head = if ms.len() == 1 {
        Seq::<char>::empty()
    } else {
        member_lines(prev, d, ind).push(',').push('\n')
    };
    if ms.len() == 1 {
        assert(prev =~= Seq::<(Seq<char>, JVal)>::empty());
        assert(member_slots(prev) =~= Seq::<Slot>::empty());
        assert(b =~= a);
        assert(run(m0, head) == Ok::<Machine, (int, crate::error::Fault)>(r));
    } else {
        assert forall|i: int| 0 <= i < prev.len() implies wf_val(#[trigger] prev[i].1) by {
            assert(prev[i] == ms[i]);
        }
        lemma_members(st, prev, d, ind, ',');
        lemma_member_next(m0, member_lines(prev, d, ind), b, closed_sub(prev.last().1));
    }
    lemma_member_key(m0, head, r, b, k, d, ind);
    lemma_context_push(b, Slot::Key(k));
    let re = settled(b.push(Slot::Key(k)), SubState::ExpectValue);
    lemma_value(re, v, d + 1, ind, c);
    lemma_member_split(ms, d, ind, c);
    assert(re.stack.drop_last().push(Slot::Entry(k, v)) =~= a + member_slots(ms));
    lemma_member_end(m0, head + indent(ind, d + 1) + quoted(k) + seq![':', ' '], re, ms, d, ind, c);
}

/// A comma and a newline after a member wait for the next key.
proof fn lemma_member_next(m0: Machine, lines: Seq<char>, b: Seq<Slot>, sub: SubState)
    requires
        step(settled(b, sub), ',') is Ok,
        run(m0, lines.push(',')) == Ok::<Machine, (int, crate::error::Fault)>(
            step(settled(b, sub), ',')->Ok_0,
        ),
        context_of(b) == Context::Object,
        sub is PrimitiveClosed || sub is StringClosed || sub is ContainerClosed,
    ensures
        run(m0, lines.push(',').push('\n')) == Ok::<Machine, (int, crate::error::Fault)>(
            settled(b, SubState::ExpectKey),
        ),
{
    lemma_run_push(m0, lines.push(','), '\n');
}

/// A member's line ends where its value's text ends.
proof fn lemma_member_end(
    m0: Machine,
    x3: Seq<char>,
    re: Machine,
    ms: Seq<(Seq<char>, JVal)>,
    d: nat,
    ind: Seq<char>,
    c: char,
)
    requires
        ms.len() > 0,
        run(m0, x3) == Ok::<Machine, (int, crate::error::Fault)>(re),
        re.stack.len() > 0,
        re.stack.last() == Slot::Key(ms.last().0),
        context_of(re.stack) == Context::Object,
        step(after(re, ms.last().1), c) is Ok,
        run(re, text_of(ms.last().1, d + 1, ind).push(c)) == Ok::<Machine, (int, crate::error::Fault)>(
            step(after(re, ms.last().1), c)->Ok_0,
        ),
        member_lines(ms, d, ind).push(c) =~= x3 + text_of(ms.last().1, d + 1, ind).push(c),
    ensures
        run(m0, member_lines(ms, d, ind).push(c)) == Ok::<Machine, (int, crate::error::Fault)>(
            step(after(re, ms.last().1), c)->Ok_0,
        ),
{
    lemma_run_append(m0, x3, text_of(ms.last().1, d + 1, ind).push(c));
}

/// A tree that the parser produced, written out by the printer with an indent
/// unit made of whitespace, parses back to the same tree.
pub proof fn law_round_trip(s: Seq<char>, ind: Seq<char>)
    requires
        parse_result(s) is Ok,
        all_ws(ind),
    ensures
        parse_result(text_of(parse_result(s)->Ok_0, 0, ind)) == parse_result(s),
{
    let m = run(initial(), s)->Ok_0;
    let v = parse_result(s)->Ok_0;
    lemma_run_wf(s);
    assert(m.stack[0] == Slot::Value(v));
    assert(wf_slot(m.stack[0]));
    lemma_value(initial(), v, 0, ind, ',');
    let t = text_of(v, 0, ind);
    let fin = after(initial(), v);
    assert(fin.stack =~= seq![Slot::Value(v)]);
    assert(fin.stack.drop_last() =~= Seq::<Slot>::empty());
}

} // verus!
