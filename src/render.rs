use vstd::prelude::*;
use vstd::string::*;
use crate::text::push_char;
use crate::value::{lemma_view_items, lemma_view_members, JSON, JVal};

verus! {

/// The indent unit repeated `n` times.
pub open spec fn indent(ind: Seq<char>, n: nat) -> Seq<char>
    decreases n,
{
    if n == 0 {
        Seq::empty()
    } else {
        indent(ind, (n - 1) as nat) + ind
    }
}

/// A string's characters with `"` and `\` escaped by a backslash, so that the
/// parser reads them back as they were.
pub open spec fn escaped(s: Seq<char>) -> Seq<char>
    decreases s.len(),
{
    if s.len() == 0 {
        Seq::empty()
    } else if s.last() == '"' || s.last() == '\\' {
        escaped(s.drop_last()) + seq!['\\', s.last()]
    } else {
        escaped(s.drop_last()).push(s.last())
    }
}

/// A string between double quotes, escaped.
pub open spec fn quoted(s: Seq<char>) -> Seq<char> {
    seq!['"'] + escaped(s) + seq!['"']
}

/// The character of a decimal digit.
pub open spec fn digit_char(d: int) -> char {
    if d == 0 {
        '0'
    } else if d == 1 {
        '1'
    } else if d == 2 {
        '2'
    } else if d == 3 {
        '3'
    } else if d == 4 {
        '4'
    } else if d == 5 {
        '5'
    } else if d == 6 {
        '6'
    } else if d == 7 {
        '7'
    } else if d == 8 {
        '8'
    } else {
        '9'
    }
}

/// The decimal digits of a natural number, most significant first.
pub open spec fn decimal(m: nat) -> Seq<char>
    decreases m,
{
    if m < 10 {
        seq![digit_char(m as int)]
    } else {
        decimal(m / 10).push(digit_char((m % 10) as int))
    }
}

/// An integer in decimal, with a leading `-` when it is negative.
pub open spec fn int_text(n: int) -> Seq<char> {
    if n < 0 {
        seq!['-'] + decimal((-n) as nat)
    } else {
        decimal(n as nat)
    }
}

/// A value written out at nesting depth `depth`: a container opens on the
/// current line, puts each element on a line of its own, indented one unit
/// deeper, with a comma after all but the last, and closes on a line indented
/// at `depth`.
pub open spec fn text_of(v: JVal, depth: nat, ind: Seq<char>) -> Seq<char>
    decreases v,
{
    match v {
        JVal::Int(n) => int_text(n),
        JVal::Flt(t) => t,
        JVal::Str(s) => quoted(s),
        JVal::Bol(b) => if b {
            seq!['t', 'r', 'u', 'e']
        } else {
            seq!['f', 'a', 'l', 's', 'e']
        },
        JVal::Nul => seq!['n', 'u', 'l', 'l'],
        JVal::Lst(items) => seq!['[', '\n'] + (if items.len() == 0 {
            Seq::empty()
        } else {
            item_lines(items, depth, ind).push('\n')
        }) + indent(ind, depth) + seq![']'],
        JVal::Obj(ms) => seq!['{', '\n'] + (if ms.len() == 0 {
            Seq::empty()
        } else {
            member_lines(ms, depth, ind).push('\n')
        }) + indent(ind, depth) + seq!['}'],
    }
}

/// The lines of an array's elements, joined by `,` and a newline.
pub open spec fn item_lines(items: Seq<JVal>, depth: nat, ind: Seq<char>) -> Seq<char>
    decreases items,
{
    if items.len() == 0 {
        Seq::empty()
    } else {
        let line = indent(ind, depth + 1) + text_of(items.last(), depth + 1, ind);
        if items.len() == 1 {
            line
        } else {
            item_lines(items.drop_last(), depth, ind) + seq![',', '\n'] + line
        }
    }
}

/// The lines of an object's members, `"key": value`, joined by `,` and a newline.
pub open spec fn member_lines(ms: Seq<(Seq<char>, JVal)>, depth: nat, ind: Seq<char>) -> Seq<char>
    decreases ms,
{
    if ms.len() == 0 {
        Seq::empty()
    } else {
        let line = indent(ind, depth + 1) + quoted(ms.last().0) + seq![':', ' '] + text_of(
            ms.last().1,
            depth + 1,
            ind,
        );
        if ms.len() == 1 {
            line
        } else {
            member_lines(ms.drop_last(), depth, ind) + seq![',', '\n'] + line
        }
    }
}

/// Writes the indent unit `n` times.
fn write_indent(out: &mut String, ind: &str, n: usize)
    ensures
        final(out)@ == old(out)@ + indent(ind@, n as nat),
{
    let mut i: usize = 0;
    assert(old(out)@ + indent(ind@, 0) =~= old(out)@);
    while i < n
        invariant
            0 <= i <= n,
            out@ == old(out)@ + indent(ind@, i as nat),
        decreases n - i,
    {
        out.append(ind);
        i = i + 1;
        assert(out@ =~= old(out)@ + indent(ind@, i as nat));
    }
}

/// Writes a string between double quotes, escaped.
fn write_quoted(out: &mut String, s: &String)
    ensures
        final(out)@ == old(out)@ + quoted(s@),
{
    let cs = crate::text::chars_of(s.as_str());
    push_char(out, '"');
    let ghost start = out@;
    let mut i: usize = 0;
    assert(cs@.take(0) =~= Seq::<char>::empty());
    assert(start + escaped(cs@.take(0)) =~= start);
    while i < cs.len()
        invariant
            0 <= i <= cs@.len(),
            cs@ == s@,
            start == old(out)@.push('"'),
            out@ == start + escaped(cs@.take(i as int)),
        decreases cs@.len() - i,
    {
        let c = cs[i];
        assert(cs@.take(i + 1).drop_last() =~= cs@.take(i as int));
        if c == '"' || c == '\\' {
            push_char(out, '\\');
            push_char(out, c);
            assert(out@ =~= start + escaped(cs@.take(i + 1)));
        } else {
            push_char(out, c);
            assert(out@ =~= start + escaped(cs@.take(i + 1)));
        }
        i = i + 1;
    }
    assert(cs@.take(i as int) =~= s@);
    push_char(out, '"');
    assert(out@ =~= old(out)@ + quoted(s@));
}

/// The character of a decimal digit.
fn digit_to_char(d: u64) -> (r: char)
    requires
        d < 10,
    ensures
        r == digit_char(d as int),
{
    if d == 0 {
        '0'
    } else if d == 1 {
        '1'
    } else if d == 2 {
        '2'
    } else if d == 3 {
        '3'
    } else if d == 4 {
        '4'
    } else if d == 5 {
        '5'
    } else if d == 6 {
        '6'
    } else if d == 7 {
        '7'
    } else if d == 8 {
        '8'
    } else {
        '9'
    }
}

/// Writes the decimal digits of a natural number.
pub(crate) fn write_decimal(out: &mut String, mag: u64)
    ensures
        final(out)@ == old(out)@ + decimal(mag as nat),
{
    let ghost whole = mag as nat;
    let mut m: u64 = mag;
    let mut rev: Vec<char> = Vec::new();
    while m >= 10
        invariant
            decimal(whole) == decimal(m as nat) + Seq::new(rev@.len(), |i: int| rev@[rev@.len() - 1 - i]),
        decreases m,
    {
        let ghost tail = Seq::new(rev@.len(), |i: int| rev@[rev@.len() - 1 - i]);
        let c = digit_to_char(m % 10);
        assert(decimal(m as nat) == decimal((m / 10) as nat).push(c));
        rev.push(c);
        assert(Seq::new(rev@.len(), |i: int| rev@[rev@.len() - 1 - i]) =~= seq![c] + tail);
        assert(decimal((m / 10) as nat).push(c) + tail =~= decimal((m / 10) as nat) + (seq![c] + tail));
        m = m / 10;
    }
    let ghost start = old(out)@;
    push_char(out, digit_to_char(m));
    let mut j = rev.len();
    while j > 0
        invariant
            j <= rev@.len(),
            start == old(out)@,
            decimal(whole) == decimal(m as nat) + Seq::new(rev@.len(), |i: int| rev@[rev@.len() - 1 - i]),
            out@ == start + decimal(m as nat) + Seq::new((rev@.len() - j) as nat, |i: int| rev@[rev@.len() - 1 - i]),
        decreases j,
    {
        let ghost k = (rev@.len() - j) as nat;
        push_char(out, rev[j - 1]);
        j = j - 1;
        assert(Seq::new((rev@.len() - j) as nat, |i: int| rev@[rev@.len() - 1 - i]) =~= Seq::new(k, |i: int| rev@[rev@.len() - 1 - i]).push(rev@[j as int]));
        assert(out@ =~= start + decimal(m as nat) + Seq::new((rev@.len() - j) as nat, |i: int| rev@[rev@.len() - 1 - i]));
    }
    assert(Seq::new((rev@.len() - j) as nat, |i: int| rev@[rev@.len() - 1 - i]) =~= Seq::new(rev@.len(), |i: int| rev@[rev@.len() - 1 - i]));
    assert(out@ =~= old(out)@ + decimal(mag as nat));
}

/// Writes an integer in decimal.
fn write_int(out: &mut String, n: i64)
    ensures
        final(out)@ == old(out)@ + int_text(n as int),
{
    let mag: u64 = if n < 0 {
        (-(n as i128)) as u64
    } else {
        n as u64
    };
    if n < 0 {
        push_char(out, '-');
    }
    write_decimal(out, mag);
    assert(out@ =~= old(out)@ + int_text(n as int));
}

/// Writes a value at nesting depth `depth`; `pre` is the indent of that depth.
fn write_value(out: &mut String, v: &JSON, pre: &String, ind: &str, Ghost(depth): Ghost<nat>)
    requires
        pre@ == indent(ind@, depth),
    ensures
        final(out)@ == old(out)@ + text_of(v@, depth, ind@),
    decreases v,
{
    match v {
        JSON::Int(n) => write_int(out, *n),
        JSON::Flt(t) => out.append(t.as_str()),
        JSON::Str(s) => write_quoted(out, s),
        JSON::Bol(b) => {
            if *b {
                push_char(out, 't');
                push_char(out, 'r');
                push_char(out, 'u');
                push_char(out, 'e');
            } else {
                push_char(out, 'f');
                push_char(out, 'a');
                push_char(out, 'l');
                push_char(out, 's');
                push_char(out, 'e');
            }
            assert(out@ =~= old(out)@ + text_of(v@, depth, ind@));
        },
        JSON::Nul => {
            push_char(out, 'n');
            push_char(out, 'u');
            push_char(out, 'l');
            push_char(out, 'l');
            assert(out@ =~= old(out)@ + text_of(v@, depth, ind@));
        },
        JSON::Lst(items) => {
            let ghost vs = v@->Lst_0;
            proof {
                lemma_view_items(items@);
            }
            push_char(out, '[');
            push_char(out, '\n');
            let ghost start = out@;
            let mut inner = pre.clone();
            inner.append(ind);
            let mut i: usize = 0;
            assert(start + item_lines(vs.take(0), depth, ind@) =~= start);
            while i < items.len()
                invariant
                    0 <= i <= items@.len() == vs.len(),
                    vs == v@->Lst_0,
                    v@ == JVal::Lst(vs),
                    *v == JSON::Lst(*items),
                    forall|j: int| 0 <= j < items@.len() ==> #[trigger] vs[j] == items@[j]@,
                    inner@ == indent(ind@, depth + 1),
                    out@ == start + item_lines(vs.take(i as int), depth, ind@),
                decreases items@.len() - i,
            {
                let ghost before = out@;
                if i > 0 {
                    push_char(out, ',');
                    push_char(out, '\n');
                }
                out.append(inner.as_str());
                write_value(out, &items[i], &inner, ind, Ghost(depth + 1));
                proof {
                    let t = vs.take(i + 1);
                    assert(t.drop_last() =~= vs.take(i as int));
                    assert(t.last() == items@[i as int]@);
                }
                assert(out@ =~= start + item_lines(vs.take(i + 1), depth, ind@));
                i = i + 1;
            }
            assert(vs.take(i as int) =~= vs);
            if items.len() > 0 {
                push_char(out, '\n');
            }
            out.append(pre.as_str());
            push_char(out, ']');
            assert(out@ =~= old(out)@ + text_of(v@, depth, ind@));
        },
        JSON::Obj(ms) => {
            let ghost vs = v@->Obj_0;
            proof {
                lemma_view_members(ms@);
            }
            push_char(out, '{');
            push_char(out, '\n');
            let ghost start = out@;
            let mut inner = pre.clone();
            inner.append(ind);
            let mut i: usize = 0;
            assert(start + member_lines(vs.take(0), depth, ind@) =~= start);
            while i < ms.len()
                invariant
                    0 <= i <= ms@.len() == vs.len(),
                    vs == v@->Obj_0,
                    v@ == JVal::Obj(vs),
                    *v == JSON::Obj(*ms),
                    forall|j: int| 0 <= j < ms@.len() ==> #[trigger] vs[j] == (ms@[j].0@, ms@[j].1@),
                    inner@ == indent(ind@, depth + 1),
                    out@ == start + member_lines(vs.take(i as int), depth, ind@),
                decreases ms@.len() - i,
            {
                if i > 0 {
                    push_char(out, ',');
                    push_char(out, '\n');
                }
                out.append(inner.as_str());
                write_quoted(out, &ms[i].0);
                push_char(out, ':');
                push_char(out, ' ');
                write_value(out, &ms[i].1, &inner, ind, Ghost(depth + 1));
                proof {
                    let t = vs.take(i + 1);
                    assert(t.drop_last() =~= vs.take(i as int));
                    assert(t.last() == (ms@[i as int].0@, ms@[i as int].1@));
                }
                assert(out@ =~= start + member_lines(vs.take(i + 1), depth, ind@));
                i = i + 1;
            }
            assert(vs.take(i as int) =~= vs);
            if ms.len() > 0 {
                push_char(out, '\n');
            }
            out.append(pre.as_str());
            push_char(out, '}');
            assert(out@ =~= old(out)@ + text_of(v@, depth, ind@));
        },
    }
}

/// Writes an object or array out as indented text, at nesting depth `lvl`
/// with `indent_str` as the indent unit. Any other value is refused.
pub fn pretty_print(obj: &JSON, lvl: usize, indent_str: &str) -> (r: Result<String, String>)
    ensures
        (obj@ is Lst || obj@ is Obj) ==> r is Ok && r->Ok_0@ == text_of(obj@, lvl as nat, indent_str@),
        !(obj@ is Lst || obj@ is Obj) ==> r is Err && r->Err_0@ == "Expected a JSON list or object"@,
{
    match obj {
        JSON::Lst(_) | JSON::Obj(_) => {
            let mut pre = String::new();
            write_indent(&mut pre, indent_str, lvl);
            assert(pre@ =~= indent(indent_str@, lvl as nat));
            let mut out = String::new();
            write_value(&mut out, obj, &pre, indent_str, Ghost(lvl as nat));
            assert(out@ =~= text_of(obj@, lvl as nat, indent_str@));
            Ok(out)
        },
        _ => Err(String::from_str("Expected a JSON list or object")),
    }
}

} // verus!
