use vstd::prelude::*;
use crate::value::JVal;
use crate::machine::{
    build_object, close_array_into, close_object_into, context_of, deliver, finish, gather_items, gather_members, initial, is_ws,
    open_context, parse_result, run, step, Context, Machine, Slot,
};
use crate::scalar::prim_value;

verus! {

/// Running the machine over `x + y` is running it over `x`, then over `y`.
pub proof fn lemma_run_append(m: Machine, x: Seq<char>, y: Seq<char>)
    ensures
        run(m, x + y) == (match run(m, x) {
            Ok(m1) => match run(m1, y) {
                Ok(m2) => Ok(m2),
                Err((i, f)) => Err((i + x.len(), f)),
            },
            Err(e) => Err(e),
        }),
    decreases y.len(),
{
    if y.len() == 0 {
        assert(x + y =~= x);
    } else {
        assert((x + y).drop_last() =~= x + y.drop_last());
        assert((x + y).last() == y.last());
        lemma_run_append(m, x, y.drop_last());
    }
}

/// Every character is a space, tab, carriage return or newline.
pub open spec fn all_ws(w: Seq<char>) -> bool {
    forall|i: int| 0 <= i < w.len() ==> is_ws(#[trigger] w[i])
}

/// The machine is in the middle of a key, a string or a primitive.
pub open spec fn token_open(m: Machine) -> bool {
    &&& (context_of(m.stack) == Context::Object || context_of(m.stack) == Context::Array)
    &&& (m.sub is BuildingKey || m.sub is BuildingString || m.sub is BuildingPrimitive)
}

/// A character that ends a primitive.
pub open spec fn ends_primitive(c: char) -> bool {
    c == ',' || c == '}' || c == ']' || is_ws(c)
}

/// Position `a.len()` of the text `a + b` lies between two tokens: the parser
/// has already failed on `a`, or is reading no token after `a`, or has just
/// read the last character of a primitive, which the first character of `b`
/// (or the end of the text) ends.
pub open spec fn between_tokens(a: Seq<char>, b: Seq<char>) -> bool {
    match run(initial(), a) {
        Err(_) => true,
        Ok(m) => !token_open(m) || (m.sub is BuildingPrimitive && (b.len() == 0 || ends_primitive(b[0]))),
    }
}

/// A state from which every character fails: a key-related sub-state inside
/// an array.
pub open spec fn stuck(m: Machine) -> bool {
    context_of(m.stack) == Context::Array && (m.sub is ExpectKey || m.sub is BuildingKey
        || m.sub is KeyClosed)
}

/// Between tokens, whitespace leaves the machine as it is.
proof fn lemma_ws_idle(m: Machine, c: char)
    requires
        is_ws(c),
        !token_open(m),
        !stuck(m),
    ensures
        step(m, c) == Ok::<Machine, crate::error::Fault>(m),
{
}

/// A stuck machine fails on any further input, and at its end.
proof fn lemma_stuck(m: Machine, s: Seq<char>)
    requires
        stuck(m),
    ensures
        s.len() > 0 ==> run(m, s) is Err,
        s.len() == 0 ==> run(m, s) == Ok::<Machine, (int, crate::error::Fault)>(m),
        finish(m) is Err,
    decreases s.len(),
{
    if s.len() > 1 {
        lemma_stuck(m, s.drop_last());
    } else if s.len() == 1 {
        assert(run(m, s.drop_last()) == Ok::<Machine, (int, crate::error::Fault)>(m));
        assert(step(m, s.last()) is Err);
    }
}

/// The root value that a run leads to, if the input ends there.
pub open spec fn accepted(r: Result<Machine, (int, crate::error::Fault)>) -> Option<JVal> {
    match r {
        Ok(m) => match finish(m) {
            Ok(v) => Some(v),
            Err(_) => None,
        },
        Err(_) => None,
    }
}

/// A run of whitespace between tokens leaves the machine as it is.
pub(crate) proof fn lemma_run_ws(m: Machine, w: Seq<char>)
    requires
        all_ws(w),
        !token_open(m),
        !stuck(m),
    ensures
        run(m, w) == Ok::<Machine, (int, crate::error::Fault)>(m),
    decreases w.len(),
{
    if w.len() > 0 {
        lemma_run_ws(m, w.drop_last());
        lemma_ws_idle(m, w.last());
    }
}

/// Running the machine is stepping on the first character, then running on the rest.
proof fn lemma_run_first(m: Machine, s: Seq<char>)
    requires
        s.len() > 0,
    ensures
        run(m, s) == (match step(m, s[0]) {
            Ok(m1) => match run(m1, s.drop_first()) {
                Ok(m2) => Ok(m2),
                Err((i, f)) => Err((i + 1, f)),
            },
            Err(f) => Err((0, f)),
        }),
{
    let x = seq![s[0]];
    assert(x + s.drop_first() =~= s);
    lemma_run_append(m, x, s.drop_first());
    assert(x.drop_last() =~= Seq::<char>::empty());
    assert(run(m, x.drop_last()) == Ok::<Machine, (int, crate::error::Fault)>(m));
    assert(x.last() == s[0]);
}

/// Whitespace that ends a primitive leads to a state that reads a following
/// delimiter as the primitive itself would have.
proof fn lemma_primitive_end(m: Machine, c: char, d: char)
    requires
        token_open(m),
        m.sub is BuildingPrimitive,
        is_ws(c),
        ends_primitive(d),
    ensures
        match step(m, c) {
            Ok(m1) => step(m, d) == step(m1, d) && !token_open(m1) && !stuck(m1) && context_of(
                m1.stack,
            ) == context_of(m.stack),
            Err(_) => step(m, d) is Err,
        },
{
    let obj = context_of(m.stack) == Context::Object;
    match crate::scalar::prim_value(m.text) {
        Ok(v) => {
            crate::parser::lemma_deliver_context(m.stack, v);
        },
        Err(_) => {},
    }
}

/// Inserting whitespace after a state between tokens changes no accepted value.
proof fn lemma_ws_insert(m: Machine, w: Seq<char>, b: Seq<char>)
    requires
        all_ws(w),
        !token_open(m) || (m.sub is BuildingPrimitive && (b.len() == 0 || ends_primitive(b[0]))),
    ensures
        accepted(run(m, w + b)) == accepted(run(m, b)),
{
    lemma_run_append(m, w, b);
    if !token_open(m) {
        if stuck(m) {
            lemma_stuck(m, w + b);
            lemma_stuck(m, b);
            lemma_stuck(m, w);
        } else {
            lemma_run_ws(m, w);
        }
    } else if w.len() == 0 {
        assert(w + b =~= b);
    } else {
        lemma_run_first(m, w);
        let c = w[0];
        let d = if b.len() > 0 {
            b[0]
        } else {
            c
        };
        lemma_primitive_end(m, c, d);
        if b.len() > 0 {
            lemma_run_first(m, b);
        }
        match step(m, c) {
            Ok(m1) => {
                lemma_run_ws(m1, w.drop_first());
                if b.len() > 0 {
                    lemma_run_first(m1, b);
                }
            },
            Err(_) => {},
        }
    }
}

/// Outside a key, a string or a primitive, no text is pending and no escape
/// is active; inside a primitive, no escape is active.
pub open spec fn pending_consistent(m: Machine) -> bool {
    &&& !(m.sub is BuildingKey || m.sub is BuildingString || m.sub is BuildingPrimitive) ==> m.text.len()
        == 0 && !m.escape
    &&& m.sub is BuildingPrimitive ==> !m.escape
}

/// At every character boundary of any input, the pending text and the escape
/// flag are set only while a key, a string or a primitive is being read.
pub proof fn law_pending_text(s: Seq<char>)
    ensures
        run(initial(), s) is Ok ==> pending_consistent(run(initial(), s)->Ok_0),
    decreases s.len(),
{
    if s.len() > 0 {
        law_pending_text(s.drop_last());
    }
}

/// Keys and entries stand only inside objects, and loose values only inside
/// arrays or as the root: `open_context` of the entries below each one says so.
pub open spec fn well_placed(st: Seq<Slot>) -> bool {
    forall|i: int|
        0 <= i < st.len() ==> match #[trigger] st[i] {
            Slot::Key(_) => open_context(st.take(i)) == Context::Object,
            Slot::Entry(_, _) => open_context(st.take(i)) == Context::Object,
            Slot::Value(_) => open_context(st.take(i)) != Context::Object,
            _ => true,
        }
}

proof fn lemma_placed_push(st: Seq<Slot>, x: Slot)
    requires
        well_placed(st),
        match x {
            Slot::Key(_) => open_context(st) == Context::Object,
            Slot::Entry(_, _) => open_context(st) == Context::Object,
            Slot::Value(_) => open_context(st) != Context::Object,
            _ => true,
        },
    ensures
        well_placed(st.push(x)),
{
    let t = st.push(x);
    assert forall|i: int| 0 <= i < t.len() implies match #[trigger] t[i] {
        Slot::Key(_) => open_context(t.take(i)) == Context::Object,
        Slot::Entry(_, _) => open_context(t.take(i)) == Context::Object,
        Slot::Value(_) => open_context(t.take(i)) != Context::Object,
        _ => true,
    } by {
        if i < st.len() {
            assert(t.take(i) =~= st.take(i));
            assert(t[i] == st[i]);
        } else {
            assert(t.take(i) =~= st);
        }
    }
}

proof fn lemma_placed_prefix(st: Seq<Slot>, n: int)
    requires
        well_placed(st),
        0 <= n <= st.len(),
    ensures
        well_placed(st.take(n)),
{
    let t = st.take(n);
    assert forall|i: int| 0 <= i < t.len() implies match #[trigger] t[i] {
        Slot::Key(_) => open_context(t.take(i)) == Context::Object,
        Slot::Entry(_, _) => open_context(t.take(i)) == Context::Object,
        Slot::Value(_) => open_context(t.take(i)) != Context::Object,
        _ => true,
    } by {
        assert(t.take(i) =~= st.take(i));
        assert(t[i] == st[i]);
    }
}

proof fn lemma_gather_prefix(st: Seq<Slot>)
    ensures
        gather_members(st) is Ok ==> gather_members(st)->Ok_0.0 == st.take(
            gather_members(st)->Ok_0.0.len() as int,
        ) && gather_members(st)->Ok_0.0.len() < st.len(),
        gather_items(st) is Ok ==> gather_items(st)->Ok_0.0 == st.take(
            gather_items(st)->Ok_0.0.len() as int,
        ) && gather_items(st)->Ok_0.0.len() < st.len(),
    decreases st.len(),
{
    if st.len() > 0 {
        lemma_gather_prefix(st.drop_last());
        if gather_members(st) is Ok {
            let r = gather_members(st)->Ok_0.0;
            assert(r =~= st.take(r.len() as int));
        }
        if gather_items(st) is Ok {
            let r = gather_items(st)->Ok_0.0;
            assert(r =~= st.take(r.len() as int));
        }
    }
}

proof fn lemma_placed_deliver(st: Seq<Slot>, v: JVal)
    requires
        well_placed(st),
    ensures
        deliver(st, v) is Ok ==> well_placed(deliver(st, v)->Ok_0),
{
    if deliver(st, v) is Ok {
        if context_of(st) == Context::Object {
            let n = st.len() - 1;
            assert(st.drop_last() =~= st.take(n));
            lemma_placed_prefix(st, n);
            assert(st[n] is Key);
            lemma_placed_push(st.drop_last(), Slot::Entry(st.last()->Key_0, v));
        } else {
            lemma_placed_push(st, Slot::Value(v));
        }
    }
}

/// Closing a container keeps keys, entries and values in place.
proof fn lemma_placed_close(st: Seq<Slot>)
    requires
        well_placed(st),
    ensures
        close_object_into(st) is Ok ==> well_placed(close_object_into(st)->Ok_0),
        close_array_into(st) is Ok ==> well_placed(close_array_into(st)->Ok_0),
{
    lemma_gather_prefix(st);
    if gather_members(st) is Ok {
        let (rest, ms) = gather_members(st)->Ok_0;
        lemma_placed_prefix(st, rest.len() as int);
        lemma_placed_deliver(rest, JVal::Obj(build_object(ms)));
    }
    if gather_items(st) is Ok {
        let (rest, vs) = gather_items(st)->Ok_0;
        lemma_placed_prefix(st, rest.len() as int);
        lemma_placed_deliver(rest, JVal::Lst(vs));
    }
}

/// Each step keeps keys, entries and values in place.
#[verifier::rlimit(30)]
proof fn lemma_placed_step(m: Machine, c: char)
    requires
        well_placed(m.stack),
    ensures
        step(m, c) is Ok ==> well_placed(step(m, c)->Ok_0.stack),
{
    let st = m.stack;
    lemma_placed_push(st, Slot::OpenObject);
    lemma_placed_push(st, Slot::OpenArray);
    if open_context(st) == Context::Object {
        lemma_placed_push(st, Slot::Key(m.text));
    }
    lemma_placed_deliver(st, JVal::Str(m.text));
    lemma_placed_close(st);
    match prim_value(m.text) {
        Ok(v) => {
            lemma_placed_deliver(st, v);
            if deliver(st, v) is Ok {
                lemma_placed_close(deliver(st, v)->Ok_0);
            }
        },
        Err(_) => {},
    }
}

/// At every character boundary of any input, no key stands inside an array,
/// and no loose value stands inside an object: values there are always paired
/// with their keys.
pub proof fn law_stack_shape(s: Seq<char>)
    ensures
        run(initial(), s) is Ok ==> well_placed(run(initial(), s)->Ok_0.stack),
    decreases s.len(),
{
    if s.len() > 0 {
        law_stack_shape(s.drop_last());
        if run(initial(), s.drop_last()) is Ok {
            lemma_placed_step(run(initial(), s.drop_last())->Ok_0, s.last());
        }
    } else {
        assert(initial().stack.len() == 0);
    }
}

/// Inserting a run of spaces, tabs, carriage returns and newlines between two
/// tokens changes neither whether the text parses nor the tree it gives.
pub proof fn law_whitespace_between_tokens(a: Seq<char>, w: Seq<char>, b: Seq<char>)
    requires
        all_ws(w),
        between_tokens(a, b),
    ensures
        (parse_result(a + w + b) is Ok) == (parse_result(a + b) is Ok),
        parse_result(a + b) is Ok ==> parse_result(a + w + b) == parse_result(a + b),
{
    assert(a + w + b =~= a + (w + b));
    lemma_run_append(initial(), a, w + b);
    lemma_run_append(initial(), a, b);
    match run(initial(), a) {
        Ok(m) => {
            lemma_ws_insert(m, w, b);
        },
        Err(_) => {},
    }
}


/// The pieces of a text, joined in order.
pub open spec fn concat(ps: Seq<Seq<char>>) -> Seq<char>
    decreases ps.len(),
{
    if ps.len() == 0 {
        Seq::empty()
    } else {
        concat(ps.drop_last()) + ps.last()
    }
}

/// The pieces of a text joined in order, with `runs[i]` inserted between
/// piece `i` and piece `i + 1`.
pub open spec fn interleave(ps: Seq<Seq<char>>, runs: Seq<Seq<char>>) -> Seq<char>
    decreases ps.len(),
{
    if ps.len() == 0 {
        Seq::empty()
    } else if ps.len() == 1 {
        ps[0]
    } else {
        interleave(ps.drop_last(), runs) + runs[ps.len() - 2] + ps.last()
    }
}

/// Two texts parse alike: both fail, or both give the same tree.
pub open spec fn same_parse(s1: Seq<char>, s2: Seq<char>) -> bool {
    &&& (parse_result(s1) is Ok) == (parse_result(s2) is Ok)
    &&& parse_result(s1) is Ok ==> parse_result(s1) == parse_result(s2)
}

/// Only the runs between the pieces matter.
proof fn lemma_interleave_runs(ps: Seq<Seq<char>>, r1: Seq<Seq<char>>, r2: Seq<Seq<char>>)
    requires
        forall|i: int| 0 <= i < ps.len() - 1 ==> r1[i] == r2[i],
    ensures
        interleave(ps, r1) == interleave(ps, r2),
    decreases ps.len(),
{
    if ps.len() > 1 {
        lemma_interleave_runs(ps.drop_last(), r1, r2);
        assert(r1[ps.len() - 2] == r2[ps.len() - 2]);
    }
}

/// Whitespace inserted after the first character of what follows a token
/// boundary keeps it a token boundary.
proof fn lemma_between_suffix(a: Seq<char>, m: Seq<char>, w: Seq<char>, p: Seq<char>)
    requires
        between_tokens(a, m + p),
        all_ws(w),
    ensures
        between_tokens(a, m + w + p),
{
    if m.len() > 0 {
        assert((m + w + p)[0] == m[0] && (m + p)[0] == m[0]);
    } else if w.len() > 0 {
        assert((m + w + p)[0] == w[0]);
    } else {
        assert(m + w + p =~= m + p);
    }
}

/// The suffix after piece `i`, before and after the last run is moved into
/// the piece before the last.
proof fn lemma_suffix_split(ps: Seq<Seq<char>>, w: Seq<char>, i: int)
    requires
        ps.len() >= 2,
        0 <= i < ps.len() - 2,
    ensures
        ({
            let n = ps.len() as int;
            let m = concat(ps.subrange(i + 1, n - 1));
            let q = ps.drop_last().update(n - 2, ps[n - 2] + w + ps[n - 1]);
            &&& concat(ps.skip(i + 1)) == m + ps[n - 1]
            &&& concat(q.skip(i + 1)) == m + w + ps[n - 1]
        }),
{
    let n = ps.len() as int;
    let q = ps.drop_last().update(n - 2, ps[n - 2] + w + ps[n - 1]);
    assert(ps.skip(i + 1).drop_last() =~= ps.subrange(i + 1, n - 1));
    assert(ps.skip(i + 1).last() == ps[n - 1]);
    assert(q.skip(i + 1).drop_last() =~= ps.subrange(i + 1, n - 2));
    assert(q.skip(i + 1).last() == ps[n - 2] + w + ps[n - 1]);
    assert(ps.subrange(i + 1, n - 1).drop_last() =~= ps.subrange(i + 1, n - 2));
    assert(ps.subrange(i + 1, n - 1).last() == ps[n - 2]);
    let k = concat(ps.subrange(i + 1, n - 2));
    assert(k + (ps[n - 2] + w + ps[n - 1]) =~= k + ps[n - 2] + w + ps[n - 1]);
}

/// The last piece alone, and the pieces before it.
proof fn lemma_last_piece(ps: Seq<Seq<char>>)
    requires
        ps.len() >= 1,
    ensures
        concat(ps.skip(ps.len() - 1)) == ps[ps.len() - 1],
        ps.take(ps.len() - 1) == ps.drop_last(),
        concat(ps) == concat(ps.drop_last()) + ps[ps.len() - 1],
{
    let n = ps.len() as int;
    let t = ps.skip(n - 1);
    assert(t.drop_last() =~= Seq::<Seq<char>>::empty());
    assert(concat(t.drop_last()) == Seq::<char>::empty());
    assert(t.last() == ps[n - 1]);
    assert(Seq::<char>::empty() + ps[n - 1] =~= ps[n - 1]);
    assert(ps.take(n - 1) =~= ps.drop_last());
}

/// Moving the last run into the piece before the last leaves the joined text
/// as it is.
proof fn lemma_interleave_move(ps: Seq<Seq<char>>, runs: Seq<Seq<char>>)
    requires
        ps.len() >= 2,
        ps.len() == runs.len() + 1,
    ensures
        ({
            let n = ps.len() as int;
            let pre = ps.drop_last();
            let q = pre.update(n - 2, ps[n - 2] + runs[n - 2] + ps[n - 1]);
            &&& interleave(ps, runs) == interleave(q, runs.drop_last())
            &&& concat(q) == concat(pre) + runs[n - 2] + ps[n - 1]
        }),
{
    let n = ps.len() as int;
    let w = runs[n - 2];
    let p = ps[n - 1];
    let pre = ps.drop_last();
    let q = pre.update(n - 2, ps[n - 2] + w + p);
    let rq = runs.drop_last();
    assert(q.drop_last() =~= pre.drop_last());
    assert(concat(pre) == concat(pre.drop_last()) + pre.last());
    assert(concat(q) == concat(q.drop_last()) + q.last());
    assert(concat(q) =~= concat(pre) + w + p);
    if n == 2 {
        assert(interleave(q, rq) == q[0]);
        assert(interleave(pre, runs) == ps[0]);
        assert(interleave(ps, runs) =~= q[0]);
    } else {
        lemma_interleave_runs(pre.drop_last(), runs, rq);
        assert(interleave(q, rq) == interleave(pre.drop_last(), rq) + rq[n - 3] + q.last());
        assert(interleave(pre, runs) == interleave(pre.drop_last(), runs) + runs[n - 3] + pre.last());
        assert(interleave(ps, runs) =~= interleave(q, rq));
    }
}

/// The boundaries between the pieces before the last stay boundaries once
/// the last run is moved into the piece before the last.
proof fn lemma_moved_boundaries(ps: Seq<Seq<char>>, runs: Seq<Seq<char>>)
    requires
        ps.len() >= 2,
        ps.len() == runs.len() + 1,
        forall|i: int| 0 <= i < runs.len() ==> all_ws(#[trigger] runs[i]),
        forall|i: int|
            0 <= i < runs.len() ==> between_tokens(
                concat(#[trigger] ps.take(i + 1)),
                concat(ps.skip(i + 1)),
            ),
    ensures
        ({
            let n = ps.len() as int;
            let q = ps.drop_last().update(n - 2, ps[n - 2] + runs[n - 2] + ps[n - 1]);
            let rq = runs.drop_last();
            &&& forall|i: int| 0 <= i < rq.len() ==> all_ws(#[trigger] rq[i])
            &&& forall|i: int|
                0 <= i < rq.len() ==> between_tokens(
                    concat(#[trigger] q.take(i + 1)),
                    concat(q.skip(i + 1)),
                )
        }),
{
    let n = ps.len() as int;
    let w = runs[n - 2];
    let p = ps[n - 1];
    let q = ps.drop_last().update(n - 2, ps[n - 2] + w + p);
    let rq = runs.drop_last();
    assert(all_ws(runs[n - 2]));
    assert forall|i: int| 0 <= i < rq.len() implies all_ws(#[trigger] rq[i]) by {
        assert(rq[i] == runs[i]);
    }
    assert forall|i: int| 0 <= i < rq.len() implies between_tokens(
        concat(#[trigger] q.take(i + 1)),
        concat(q.skip(i + 1)),
    ) by {
        assert(q.take(i + 1) =~= ps.take(i + 1));
        assert(between_tokens(concat(ps.take(i + 1)), concat(ps.skip(i + 1))));
        lemma_suffix_split(ps, w, i);
        lemma_between_suffix(concat(ps.take(i + 1)), concat(ps.subrange(i + 1, n - 1)), w, p);
    }
}

/// Inserting runs of spaces, tabs, carriage returns and newlines at any number
/// of token boundaries at once changes neither whether the text parses nor the
/// tree it gives. The text is cut into pieces, and run `i` goes between piece
/// `i` and piece `i + 1`, where the text is between two tokens.
pub proof fn law_whitespace_runs(ps: Seq<Seq<char>>, runs: Seq<Seq<char>>)
    requires
        ps.len() == runs.len() + 1,
        forall|i: int| 0 <= i < runs.len() ==> all_ws(#[trigger] runs[i]),
        forall|i: int|
            0 <= i < runs.len() ==> between_tokens(
                concat(#[trigger] ps.take(i + 1)),
                concat(ps.skip(i + 1)),
            ),
    ensures
        same_parse(interleave(ps, runs), concat(ps)),
    decreases ps.len(),
{
    let n = ps.len() as int;
    lemma_last_piece(ps);
    if n == 1 {
        assert(ps.drop_last() =~= Seq::<Seq<char>>::empty());
        assert(Seq::<char>::empty() + ps[0] =~= ps[0]);
    } else {
        let w = runs[n - 2];
        let p = ps[n - 1];
        let y = concat(ps.drop_last());
        // the last run, inserted alone
        let i = n - 2;
        assert(between_tokens(concat(ps.take(i + 1)), concat(ps.skip(i + 1))));
        assert(i + 1 == n - 1);
        assert(all_ws(runs[n - 2]));
        law_whitespace_between_tokens(y, w, p);
        // the other runs, with the last one moved into the piece before the last
        let q = ps.drop_last().update(n - 2, ps[n - 2] + w + p);
        lemma_moved_boundaries(ps, runs);
        law_whitespace_runs(q, runs.drop_last());
        lemma_interleave_move(ps, runs);
    }
}

} // verus!
