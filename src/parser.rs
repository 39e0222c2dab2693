use vstd::prelude::*;
use crate::error::{fault_text, Fault, ParseErr};
use crate::machine::{
    after_value, begin_value, build_object, close_array, close_array_into, close_char,
    close_current, close_object, close_object_into, context_of, deliver, entry_pack, finish, gather_items, gather_members, initial, is_marker, is_ws,
    keys_unique, mismatch, open_context, parse_result, position, primitive_char, put_member,
    quoted_char, run, settled, step, step_inside, Context, Machine, Slot, SubState,
};
use crate::scalar::{digit_of, get_esc_char, primitive_parse};
use crate::value::{lemma_view_items, lemma_view_members, view_items, view_members, JSON, JVal};

verus! {

/// An entry of the builder stack.
#[derive(Debug, PartialEq)]
pub enum Pending {
    OpenObject,
    OpenArray,
    Value(JSON),
    Key(String),
    Entry(String, JSON),
}

impl Pending {
    /// The model of this entry.
    pub open spec fn view(&self) -> Slot {
        match self {
            Pending::OpenObject => Slot::OpenObject,
            Pending::OpenArray => Slot::OpenArray,
            Pending::Value(v) => Slot::Value(v@),
            Pending::Key(k) => Slot::Key(k@),
            Pending::Entry(k, v) => Slot::Entry(k@, v@),
        }
    }
}

/// The model of the builder stack.
pub open spec fn stack_view(s: Seq<Pending>) -> Seq<Slot> {
    Seq::new(s.len(), |i: int| s[i]@)
}

/// The members of a reversed sequence, in source order.
pub open spec fn reversed_members(rev: Seq<(String, JSON)>) -> Seq<(Seq<char>, JVal)> {
    Seq::new(rev.len(), |i: int| (rev[rev.len() - 1 - i].0@, rev[rev.len() - 1 - i].1@))
}

/// The values of a reversed sequence, in source order.
pub open spec fn reversed_items(rev: Seq<JSON>) -> Seq<JVal> {
    Seq::new(rev.len(), |i: int| rev[rev.len() - 1 - i]@)
}

/// How pushing one entry changes the container context.
pub proof fn lemma_context_push(s: Seq<Slot>, x: Slot)
    ensures
        !is_marker(x) && s.len() > 0 ==> context_of(s.push(x)) == context_of(s),
        !is_marker(x) && s.len() == 0 ==> context_of(s.push(x)) == Context::Finished,
        x is OpenObject ==> context_of(s.push(x)) == Context::Object,
        x is OpenArray ==> context_of(s.push(x)) == Context::Array,
{
    assert(s.push(x).drop_last() =~= s);
}

/// The kind of the innermost open container, read from the top of the stack.
pub fn inside_what(mem: &Vec<Pending>) -> (r: Context)
    ensures
        r == context_of(stack_view(mem@)),
{
    let ghost full = stack_view(mem@);
    let n = mem.len();
    if n == 0 {
        return Context::Start;
    }
    let mut i = n;
    assert(full.take(n as int) =~= full);
    while i > 0
        invariant
            0 <= i <= n == mem@.len(),
            full == stack_view(mem@),
            open_context(full) == open_context(full.take(i as int)),
        decreases i,
    {
        let ghost part = full.take(i as int);
        assert(part.last() == mem@[i - 1]@);
        match mem[i - 1] {
            Pending::OpenObject => {
                return Context::Object;
            },
            Pending::OpenArray => {
                return Context::Array;
            },
            _ => {},
        }
        assert(part.drop_last() =~= full.take(i - 1));
        i = i - 1;
    }
    assert(full.take(0) =~= Seq::<Slot>::empty());
    Context::Finished
}

/// Packs the pending value on top of the stack with the pending key below it
/// into one entry. Fails where the top is no value, or no key lies below it.
pub fn pack_entry(mem: &mut Vec<Pending>) -> (r: Result<(), Fault>)
    ensures
        match entry_pack(stack_view(old(mem)@)) {
            Ok(st) => r is Ok && stack_view(final(mem)@) == st,
            Err(f) => r == Err::<(), Fault>(f),
        },
{
    let ghost before = stack_view(mem@);
    let n = mem.len();
    if n == 0 {
        return Err(Fault::MissingValue);
    }
    assert(before.last() == mem@[n - 1]@);
    let v = match mem.pop() {
        Some(Pending::Value(v)) => v,
        _ => {
            return Err(Fault::MissingValue);
        },
    };
    if n < 2 {
        return Err(Fault::MissingKey);
    }
    assert(before[n - 2] == mem@[n - 2]@);
    match mem.pop() {
        Some(Pending::Key(k)) => {
            let ghost kv = k@;
            mem.push(Pending::Entry(k, v));
            assert(stack_view(mem@) =~= before.drop_last().drop_last().push(Slot::Entry(kv, v@)));
            Ok(())
        },
        _ => Err(Fault::MissingKey),
    }
}

/// Hands a finished value to the innermost container: it is pushed as a
/// pending value, and inside an object packed at once with the pending key.
fn deliver_value(mem: &mut Vec<Pending>, ctx: Context, v: JSON) -> (r: Result<(), Fault>)
    requires
        ctx == context_of(stack_view(old(mem)@)),
    ensures
        match deliver(stack_view(old(mem)@), v@) {
            Ok(st) => r is Ok && stack_view(final(mem)@) == st,
            Err(f) => r == Err::<(), Fault>(f),
        },
{
    let ghost before = stack_view(mem@);
    let ghost vv = v@;
    mem.push(Pending::Value(v));
    assert(stack_view(mem@) =~= before.push(Slot::Value(vv)));
    if ctx == Context::Object {
        assert(before.push(Slot::Value(vv)).drop_last().drop_last() =~= before.drop_last());
        pack_entry(mem)
    } else {
        Ok(())
    }
}

/// Sets the value of a key in an object under construction: in place where the
/// key is present (the last write wins), at the end where it is new.
fn set_member(obj: &mut Vec<(String, JSON)>, k: String, v: JSON)
    requires
        keys_unique(view_members(old(obj)@)),
    ensures
        view_members(final(obj)@) == put_member(view_members(old(obj)@), k@, v@),
        keys_unique(view_members(final(obj)@)),
{
    let ghost before = view_members(obj@);
    let ghost kv = k@;
    let ghost vv = v@;
    proof {
        lemma_view_members(obj@);
    }
    let mut i: usize = 0;
    while i < obj.len()
        invariant
            0 <= i <= obj@.len(),
            obj@ == old(obj)@,
            before == view_members(obj@),
            before.len() == obj@.len(),
            forall|j: int| 0 <= j < obj@.len() ==> #[trigger] before[j] == (obj@[j].0@, obj@[j].1@),
            keys_unique(before),
            kv == k@,
            vv == v@,
            forall|j: int| 0 <= j < i ==> (#[trigger] before[j]).0 != kv,
        decreases obj@.len() - i,
    {
        if obj[i].0 == k {
            assert(before[i as int].0 == kv);
            obj.set(i, (k, v));
            proof {
                lemma_view_members(obj@);
                let c = choose|c: int| 0 <= c < before.len() && (#[trigger] before[c]).0 == kv;
                assert(c == i);
                assert(view_members(obj@) =~= before.update(i as int, (kv, vv)));
            }
            return;
        }
        i = i + 1;
    }
    obj.push((k, v));
    proof {
        lemma_view_members(obj@);
        assert(view_members(obj@) =~= before.push((kv, vv)));
    }
}

/// Closes the innermost object: pops its entries down to its marker and
/// pushes the object they make as a pending value.
pub fn pack_object(mem: &mut Vec<Pending>) -> (r: Result<(), Fault>)
    ensures
        match close_object(stack_view(old(mem)@)) {
            Ok(st) => r is Ok && stack_view(final(mem)@) == st,
            Err(f) => r == Err::<(), Fault>(f),
        },
{
    let ghost orig = stack_view(mem@);
    let mut rev: Vec<(String, JSON)> = Vec::new();
    loop
        invariant_except_break
            orig == stack_view(old(mem)@),
            gather_members(orig) == (match gather_members(stack_view(mem@)) {
                Ok((rest, ms)) => Ok((rest, ms + reversed_members(rev@))),
                Err(f) => Err(f),
            }),
        ensures
            orig == stack_view(old(mem)@),
            gather_members(orig) == Ok::<(Seq<Slot>, Seq<(Seq<char>, JVal)>), Fault>(
                (stack_view(mem@), reversed_members(rev@)),
            ),
        decreases mem@.len(),
    {
        let ghost cur = stack_view(mem@);
        let top = mem.pop();
        proof {
            if cur.len() > 0 {
                assert(top is Some && cur.last() == top->Some_0@);
            }
        }
        match top {
            Some(Pending::Entry(k, v)) => {
                let ghost x = (k@, v@);
                let ghost old_rev = reversed_members(rev@);
                assert(cur.drop_last() =~= stack_view(mem@));
                rev.push((k, v));
                assert(reversed_members(rev@) =~= seq![x] + old_rev);
                assert forall|ms: Seq<(Seq<char>, JVal)>| #[trigger] ms.push(x) + old_rev =~= ms + (
                seq![x] + old_rev) by {}
            },
            Some(Pending::OpenObject) => {
                assert(cur.drop_last() =~= stack_view(mem@));
                assert(Seq::<(Seq<char>, JVal)>::empty() + reversed_members(rev@) =~= reversed_members(rev@));
                break;
            },
            _ => {
                return Err(Fault::Leftovers);
            },
        }
    }
    let ghost src = reversed_members(rev@);
    let mut obj: Vec<(String, JSON)> = Vec::new();
    let ghost mut done: int = 0;
    while rev.len() > 0
        invariant
            src.len() == done + rev@.len(),
            0 <= done,
            forall|j: int| done <= j < src.len() ==> #[trigger] src[j] == (rev@[src.len() - 1 - j].0@, rev@[src.len() - 1 - j].1@),
            view_members(obj@) == build_object(src.take(done)),
            keys_unique(view_members(obj@)),
        decreases rev@.len(),
    {
        let ghost before = rev@;
        let (k, v) = rev.pop().unwrap();
        assert(src[done] == (k@, v@));
        set_member(&mut obj, k, v);
        assert(src.take(done + 1).drop_last() =~= src.take(done));
        proof {
            done = done + 1;
        }
    }
    assert(src.take(done) =~= src);
    let ghost rest = stack_view(mem@);
    let ghost ov = JSON::Obj(obj)@;
    mem.push(Pending::Value(JSON::Obj(obj)));
    assert(stack_view(mem@) =~= rest.push(Slot::Value(ov)));
    Ok(())
}

/// Closes the innermost array: pops its values down to its marker and pushes
/// the array they make as a pending value.
pub fn pack_list(mem: &mut Vec<Pending>) -> (r: Result<(), Fault>)
    ensures
        match close_array(stack_view(old(mem)@)) {
            Ok(st) => r is Ok && stack_view(final(mem)@) == st,
            Err(f) => r == Err::<(), Fault>(f),
        },
{
    let ghost orig = stack_view(mem@);
    let mut rev: Vec<JSON> = Vec::new();
    loop
        invariant_except_break
            orig == stack_view(old(mem)@),
            gather_items(orig) == (match gather_items(stack_view(mem@)) {
                Ok((rest, vs)) => Ok((rest, vs + reversed_items(rev@))),
                Err(f) => Err(f),
            }),
        ensures
            orig == stack_view(old(mem)@),
            gather_items(orig) == Ok::<(Seq<Slot>, Seq<JVal>), Fault>(
                (stack_view(mem@), reversed_items(rev@)),
            ),
        decreases mem@.len(),
    {
        let ghost cur = stack_view(mem@);
        let top = mem.pop();
        proof {
            if cur.len() > 0 {
                assert(top is Some && cur.last() == top->Some_0@);
            }
        }
        match top {
            Some(Pending::Value(v)) => {
                let ghost x = v@;
                let ghost old_rev = reversed_items(rev@);
                assert(cur.drop_last() =~= stack_view(mem@));
                rev.push(v);
                assert(reversed_items(rev@) =~= seq![x] + old_rev);
                assert forall|vs: Seq<JVal>| #[trigger] vs.push(x) + old_rev =~= vs + (seq![x]
                    + old_rev) by {}
            },
            Some(Pending::OpenArray) => {
                assert(cur.drop_last() =~= stack_view(mem@));
                assert(Seq::<JVal>::empty() + reversed_items(rev@) =~= reversed_items(rev@));
                break;
            },
            Some(Pending::OpenObject) => {
                return Err(Fault::ObjectCloseInList);
            },
            Some(_) => {
                return Err(Fault::KeyInList);
            },
            None => {
                return Err(Fault::Leftovers);
            },
        }
    }
    let ghost src = reversed_items(rev@);
    let mut items: Vec<JSON> = Vec::new();
    while rev.len() > 0
        invariant
            src.len() == items@.len() + rev@.len(),
            forall|j: int| items@.len() <= j < src.len() ==> #[trigger] src[j] == rev@[src.len() - 1 - j]@,
            view_items(items@) == src.take(items@.len() as int),
        decreases rev@.len(),
    {
        let ghost before = rev@;
        let ghost n: int = items@.len() as int;
        let ghost old_items = items@;
        let v = rev.pop().unwrap();
        assert(src[n] == v@);
        items.push(v);
        proof {
            lemma_view_items(items@);
            lemma_view_items(old_items);
            assert(view_items(items@) =~= src.take(n + 1 as int)) by {
                assert forall|j: int| 0 <= j < n implies view_items(items@)[j] == src.take(n + 1 as int)[j] by {
                    assert(view_items(old_items)[j] == src.take(n)[j]);
                    assert(items@[j] == old_items[j]);
                }
            }
        }
    }
    assert(src.take(items@.len() as int) =~= src);
    let ghost rest = stack_view(mem@);
    let ghost lv = JSON::Lst(items)@;
    mem.push(Pending::Value(JSON::Lst(items)));
    assert(stack_view(mem@) =~= rest.push(Slot::Value(lv)));
    Ok(())
}

/// Closing a container and then packing its value with a pending key, where
/// the container around is an object, hands the value to that container.
pub proof fn lemma_close_split(st: Seq<Slot>)
    ensures
        close_object_into(st) == (match close_object(st) {
            Ok(s2) => if context_of(s2) == Context::Object {
                entry_pack(s2)
            } else {
                Ok(s2)
            },
            Err(f) => Err(f),
        }),
        close_array_into(st) == (match close_array(st) {
            Ok(s2) => if context_of(s2) == Context::Object {
                entry_pack(s2)
            } else {
                Ok(s2)
            },
            Err(f) => Err(f),
        }),
{
    if gather_members(st) is Ok {
        let (rest, ms) = gather_members(st)->Ok_0;
        lemma_hand_up(rest, JVal::Obj(build_object(ms)));
    }
    if gather_items(st) is Ok {
        let (rest, vs) = gather_items(st)->Ok_0;
        lemma_hand_up(rest, JVal::Lst(vs));
    }
}

/// Handing a value to a container is pushing it, then packing it with the
/// pending key where the container is an object.
pub proof fn lemma_hand_up(rest: Seq<Slot>, v: JVal)
    ensures
        deliver(rest, v) == (if context_of(rest.push(Slot::Value(v))) == Context::Object {
            entry_pack(rest.push(Slot::Value(v)))
        } else {
            Ok(rest.push(Slot::Value(v)))
        }),
{
    let s2 = rest.push(Slot::Value(v));
    lemma_context_push(rest, Slot::Value(v));
    assert(s2.drop_last() =~= rest);
    assert(s2.drop_last().drop_last() =~= rest.drop_last());
    if rest.len() > 0 {
        assert(s2[s2.len() - 2] == rest.last());
    }
}

/// Handing a value to an open container leaves the context as it was.
pub proof fn lemma_deliver_context(s: Seq<Slot>, v: JVal)
    requires
        context_of(s) == Context::Object || context_of(s) == Context::Array,
    ensures
        deliver(s, v) is Ok ==> context_of(deliver(s, v)->Ok_0) == context_of(s),
{
    if deliver(s, v) is Ok {
        if context_of(s) == Context::Object {
            let t = s.drop_last();
            let x = Slot::Entry(s.last()->Key_0, v);
            assert(t.push(x).drop_last() =~= t);
            assert(s.drop_last() =~= t);
        } else {
            lemma_context_push(s, Slot::Value(v));
        }
    }
}

/// Space, tab, carriage return or newline.
fn is_space(c: char) -> (r: bool)
    ensures
        r == is_ws(c),
{
    c == ' ' || c == '\t' || c == '\r' || c == '\n'
}

/// The character that closes an object (`obj`) or an array.
fn closer(obj: bool) -> (r: char)
    ensures
        r == close_char(obj),
{
    if obj {
        '}'
    } else {
        ']'
    }
}

/// The fault for the other container's closing character.
fn mismatch_fault(obj: bool) -> (r: Fault)
    ensures
        r == mismatch(obj),
{
    if obj {
        Fault::ListCloseInObject
    } else {
        Fault::ObjectCloseInList
    }
}

/// The context inside an object (`obj`) or an array.
fn context_for(obj: bool) -> (r: Context)
    ensures
        r == (if obj { Context::Object } else { Context::Array }),
{
    if obj {
        Context::Object
    } else {
        Context::Array
    }
}

/// The parser between two characters: the builder stack, the container
/// context (a cache of what the stack says), the sub-state, the characters of
/// the key, string or primitive being read, and whether an escape is active.
pub struct Parser {
    pub stack: Vec<Pending>,
    pub ctx: Context,
    pub sub: SubState,
    pub text: Vec<char>,
    pub escape: bool,
}

/// The parser after an operation whose model is `want`: the same state where
/// that succeeds, the same fault where it fails.
pub open spec fn follows(p: Parser, r: Result<(), Fault>, want: Result<Machine, Fault>) -> bool {
    match want {
        Ok(m) => r is Ok && p.inv() && p@ == m,
        Err(f) => r == Err::<(), Fault>(f),
    }
}

impl Parser {
    /// The model of the parser.
    pub open spec fn view(&self) -> Machine {
        Machine {
            stack: stack_view(self.stack@),
            sub: self.sub,
            text: self.text@,
            escape: self.escape,
        }
    }

    /// The cached context is what the stack says.
    pub open spec fn inv(&self) -> bool {
        self.ctx == context_of(stack_view(self.stack@))
    }

    /// A parser before the first character.
    pub fn new() -> (r: Parser)
        ensures
            r.inv(),
            r@ == crate::machine::initial(),
    {
        let r = Parser {
            stack: Vec::new(),
            ctx: Context::Start,
            sub: SubState::Ready,
            text: Vec::new(),
            escape: false,
        };
        assert(r@.stack =~= Seq::<Slot>::empty());
        r
    }

    /// Enters `sub` with no text pending.
    fn settle(&mut self, sub: SubState)
        ensures
            final(self)@ == settled(old(self)@.stack, sub),
            final(self).stack == old(self).stack,
            final(self).ctx == old(self).ctx,
    {
        self.sub = sub;
        self.text = Vec::new();
        self.escape = false;
    }

    /// Opens an object (`obj`) or an array.
    fn open(&mut self, obj: bool)
        requires
            old(self).inv(),
        ensures
            final(self).inv(),
            final(self)@ == settled(
                old(self)@.stack.push(if obj { Slot::OpenObject } else { Slot::OpenArray }),
                SubState::Ready,
            ),
    {
        let ghost before = self@.stack;
        let marker = if obj {
            Pending::OpenObject
        } else {
            Pending::OpenArray
        };
        self.stack.push(marker);
        assert(stack_view(self.stack@) =~= before.push(marker@));
        proof {
            lemma_context_push(before, marker@);
        }
        self.ctx = context_for(obj);
        self.settle(SubState::Ready);
    }

    /// Closes the current container and recomputes the context.
    fn close_current(&mut self, obj: bool) -> (r: Result<(), Fault>)
        requires
            old(self).inv(),
        ensures
            follows(*final(self), r, close_current(old(self)@, obj)),
    {
        let r = if obj {
            pack_object(&mut self.stack)
        } else {
            pack_list(&mut self.stack)
        };
        proof {
            lemma_close_split(old(self)@.stack);
        }
        match r {
            Ok(()) => {},
            Err(f) => {
                return Err(f);
            },
        }
        if inside_what(&self.stack) == Context::Object {
            match pack_entry(&mut self.stack) {
                Ok(()) => {},
                Err(f) => {
                    return Err(f);
                },
            }
        }
        self.ctx = inside_what(&self.stack);
        self.settle(SubState::ContainerClosed);
        Ok(())
    }

    /// The first character of a value.
    fn begin_value(&mut self, c: char) -> (r: Result<(), Fault>)
        requires
            old(self).inv(),
        ensures
            follows(*final(self), r, begin_value(old(self)@, c)),
    {
        if c == '{' {
            self.open(true);
            Ok(())
        } else if c == '[' {
            self.open(false);
            Ok(())
        } else if c == '"' {
            self.settle(SubState::BuildingString);
            Ok(())
        } else if digit_of(c).is_some() || c == '-' || c == 't' || c == 'f' || c == 'n' {
            self.settle(SubState::BuildingPrimitive);
            self.text.push(c);
            assert(self.text@ =~= seq![c]);
            Ok(())
        } else if is_space(c) {
            Ok(())
        } else {
            Err(Fault::ExpectedValue)
        }
    }

    /// A character after a complete value.
    fn after_value(&mut self, c: char, obj: bool) -> (r: Result<(), Fault>)
        requires
            old(self).inv(),
        ensures
            follows(*final(self), r, after_value(old(self)@, c, obj)),
    {
        if c == ',' {
            self.settle(if obj { SubState::ExpectKey } else { SubState::ExpectValue });
            Ok(())
        } else if c == closer(obj) {
            self.close_current(obj)
        } else if c == closer(!obj) {
            Err(mismatch_fault(obj))
        } else if is_space(c) {
            Ok(())
        } else {
            Err(Fault::ExpectedSeparator)
        }
    }

    /// A character inside a quoted key (`key`) or string value.
    fn quoted_char(&mut self, c: char, key: bool) -> (r: Result<(), Fault>)
        requires
            old(self).inv(),
            old(self).ctx == Context::Object || old(self).ctx == Context::Array,
        ensures
            follows(*final(self), r, quoted_char(old(self)@, c, key)),
    {
        if self.escape {
            match get_esc_char(c) {
                Some(e) => {
                    self.text.push(e);
                    self.escape = false;
                    Ok(())
                },
                None => Err(Fault::BadEscape),
            }
        } else if c == '\\' {
            self.escape = true;
            Ok(())
        } else if c == '"' {
            let ghost before = self@.stack;
            let ghost text = self.text;
            if key {
                let k = crate::text::string_of(&self.text);
                self.stack.push(Pending::Key(k));
                assert(stack_view(self.stack@) =~= before.push(Slot::Key(text@)));
                proof {
                    lemma_context_push(before, Slot::Key(text@));
                }
                self.settle(SubState::KeyClosed);
                Ok(())
            } else {
                let s = crate::text::string_of(&self.text);
                proof {
                    lemma_deliver_context(before, JVal::Str(text@));
                }
                match deliver_value(&mut self.stack, self.ctx, JSON::Str(s)) {
                    Ok(()) => {
                        self.settle(SubState::StringClosed);
                        Ok(())
                    },
                    Err(f) => Err(f),
                }
            }
        } else {
            self.text.push(c);
            Ok(())
        }
    }

    /// A character while a primitive is being read.
    fn primitive_char(&mut self, c: char, obj: bool) -> (r: Result<(), Fault>)
        requires
            old(self).inv(),
            old(self).ctx == (if obj { Context::Object } else { Context::Array }),
        ensures
            follows(*final(self), r, primitive_char(old(self)@, c, obj)),
    {
        if c == closer(!obj) {
            Err(mismatch_fault(obj))
        } else if c == ',' || c == closer(obj) || is_space(c) {
            let ghost before = self@.stack;
            let v = match primitive_parse(&self.text) {
                Ok(v) => v,
                Err(f) => {
                    return Err(f);
                },
            };
            proof {
                lemma_deliver_context(before, v@);
            }
            match deliver_value(&mut self.stack, self.ctx, v) {
                Ok(()) => {},
                Err(f) => {
                    return Err(f);
                },
            }
            self.settle(SubState::PrimitiveClosed);
            self.after_value(c, obj)
        } else {
            self.text.push(c);
            Ok(())
        }
    }

    /// One character inside an object (`obj`) or an array.
    fn step_inside(&mut self, c: char, obj: bool) -> (r: Result<(), Fault>)
        requires
            old(self).inv(),
            old(self).ctx == (if obj { Context::Object } else { Context::Array }),
        ensures
            follows(*final(self), r, step_inside(old(self)@, c, obj)),
    {
        match self.sub {
            SubState::Ready => {
                if obj {
                    if c == '"' {
                        self.settle(SubState::BuildingKey);
                        Ok(())
                    } else if c == '}' {
                        self.close_current(obj)
                    } else if is_space(c) {
                        Ok(())
                    } else {
                        Err(Fault::ExpectedKey)
                    }
                } else {
                    if c == ']' {
                        self.close_current(obj)
                    } else {
                        self.begin_value(c)
                    }
                }
            },
            SubState::ExpectKey => {
                if !obj {
                    Err(Fault::KeyInList)
                } else if c == '"' {
                    self.settle(SubState::BuildingKey);
                    Ok(())
                } else if is_space(c) {
                    Ok(())
                } else {
                    Err(Fault::ExpectedKey)
                }
            },
            SubState::BuildingKey => {
                if !obj {
                    Err(Fault::KeyInList)
                } else {
                    self.quoted_char(c, true)
                }
            },
            SubState::KeyClosed => {
                if !obj {
                    Err(Fault::KeyInList)
                } else if c == ':' {
                    self.settle(SubState::ExpectValue);
                    Ok(())
                } else if is_space(c) {
                    Ok(())
                } else {
                    Err(Fault::ExpectedColon)
                }
            },
            SubState::ExpectValue => self.begin_value(c),
            SubState::BuildingPrimitive => self.primitive_char(c, obj),
            SubState::BuildingString => self.quoted_char(c, false),
            _ => self.after_value(c, obj),
        }
    }

    /// Consumes one character.
    pub fn step(&mut self, c: char) -> (r: Result<(), Fault>)
        requires
            old(self).inv(),
        ensures
            follows(*final(self), r, step(old(self)@, c)),
    {
        match self.ctx {
            Context::Start => {
                if c == '{' {
                    self.open(true);
                    Ok(())
                } else if c == '[' {
                    self.open(false);
                    Ok(())
                } else if is_space(c) {
                    Ok(())
                } else {
                    Err(Fault::ExpectedRoot)
                }
            },
            Context::Finished => {
                if is_space(c) {
                    Ok(())
                } else {
                    Err(Fault::TrailingCharacter)
                }
            },
            Context::Object => self.step_inside(c, true),
            Context::Array => self.step_inside(c, false),
        }
    }
}

/// Line and column never exceed the number of characters read, plus one.
proof fn lemma_position_bound(s: Seq<char>)
    ensures
        1 <= position(s).0 <= s.len() + 1,
        position(s).1 <= s.len(),
    decreases s.len(),
{
    if s.len() > 0 {
        lemma_position_bound(s.drop_last());
    }
}

/// Once a prefix of the input has failed, the whole input fails the same way.
pub proof fn lemma_run_failed_prefix(m: Machine, s: Seq<char>, j: int)
    requires
        0 <= j <= s.len(),
        run(m, s.take(j)) is Err,
    ensures
        run(m, s) == run(m, s.take(j)),
    decreases s.len(),
{
    if j == s.len() {
        assert(s.take(j) =~= s);
    } else {
        assert(s.drop_last().take(j) =~= s.take(j));
        lemma_run_failed_prefix(m, s.drop_last(), j);
    }
}

/// The result once the input is exhausted: the root value, if the stack has
/// been reduced to exactly one object or array.
fn finish_parse(p: Parser) -> (r: Result<JSON, Fault>)
    requires
        p.inv(),
    ensures
        match finish(p@) {
            Ok(v) => r is Ok && r->Ok_0@ == v,
            Err(f) => r == Err::<JSON, Fault>(f),
        },
{
    let mut stack = p.stack;
    if p.ctx != Context::Finished {
        return Err(Fault::Incomplete);
    }
    if stack.len() != 1 {
        return Err(Fault::RootCount);
    }
    let ghost before = stack@;
    assert(stack_view(before)[0] == before[0]@);
    match stack.pop() {
        Some(Pending::Value(v)) => match v {
            JSON::Obj(_) => Ok(v),
            JSON::Lst(_) => Ok(v),
            _ => Err(Fault::RootNotContainer),
        },
        _ => Err(Fault::UnexpectedFinal),
    }
}

/// Parses a whole text whose root is an object or an array. The text holds
/// fewer than `usize::MAX` characters, so that line and column fit in a `usize`.
pub fn parse(json_str: &String) -> (r: Result<JSON, ParseErr>)
    requires
        json_str@.len() < usize::MAX,
    ensures
        match parse_result(json_str@) {
            Ok(v) => r is Ok && r->Ok_0@ == v,
            Err((line, col, f)) => r is Err && r->Err_0.line_idx == line && r->Err_0.ch_pos == col
                && r->Err_0.msg@ == fault_text(f),
        },
{
    let chars = crate::text::chars_of(json_str.as_str());
    let ghost s = json_str@;
    let mut p = Parser::new();
    let mut line_idx: usize = 1;
    let mut ch_pos: usize = 0;
    let mut i: usize = 0;
    assert(s.take(0) =~= Seq::<char>::empty());
    while i < chars.len()
        invariant
            chars@ == s,
            s == json_str@,
            s.len() < usize::MAX,
            0 <= i <= s.len(),
            p.inv(),
            run(initial(), s.take(i as int)) == Ok::<Machine, (int, Fault)>(p@),
            (line_idx as nat, ch_pos as nat) == position(s.take(i as int)),
        decreases s.len() - i,
    {
        let c = chars[i];
        let ghost prefix = s.take(i + 1);
        assert(prefix.drop_last() =~= s.take(i as int));
        assert(prefix.last() == c);
        proof {
            lemma_position_bound(s.take(i as int));
        }
        if c == '\n' {
            line_idx = line_idx + 1;
            ch_pos = 1;
        } else {
            ch_pos = ch_pos + 1;
        }
        let ghost before = p@;
        match p.step(c) {
            Ok(()) => {},
            Err(f) => {
                proof {
                    lemma_run_failed_prefix(initial(), s, i + 1);
                }
                return Err(ParseErr::e(line_idx, ch_pos, f.text()));
            },
        }
        i = i + 1;
    }
    assert(s.take(i as int) =~= s);
    match finish_parse(p) {
        Ok(v) => Ok(v),
        Err(f) => Err(ParseErr::e(line_idx, ch_pos, f.text())),
    }
}

} // verus!
