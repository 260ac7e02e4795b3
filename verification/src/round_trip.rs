//! Reading back what was written: the text of an artifact gives back the
//! artifact.  The scanners of the format are followed over encoded text with
//! a small state machine (is the next character escaped, how deep are the
//! brackets).
use vstd::prelude::*;
use crate::ast::{BinaryOperator, UnaryOperator};
use crate::artifact::{
    after, artifact_lines, deserialize_text, function_lines, header, join_lines,
    lines_scan, parameter_lines, read_functions, read_params, serialize_text, strip_cr,
    text_lines, binary_name, block, bracket_scan, decode_binary, decode_instruction,
    decode_parts, decode_sequence, decode_unary, encode_instruction, encode_sequence, escape,
    escape_char, extract_bracketed, is_special, lemma_unescape_escape, read_blocks, split_depth,
    split_escaped, split_scan, starts_with, unary_name,
};
use crate::ir::InstructionView;
use crate::vm::CompiledFunctionView;
use crate::text::{all_digits, decimal, int_text, is_digit, lemma_decimal};

verus! {

/// The scanner state after one character: escaped-next and bracket depth.
pub open spec fn step(st: (bool, int), c: char) -> (bool, int) {
    if st.0 {
        (false, st.1)
    } else if c == '\\' {
        (true, st.1)
    } else if c == '[' {
        (false, st.1 + 1)
    } else if c == ']' {
        (false, st.1 - 1)
    } else {
        (false, st.1)
    }
}

/// The state after the whole text.
pub open spec fn walk(t: Seq<char>, st: (bool, int)) -> (bool, int)
    decreases t.len(),
{
    if t.len() == 0 {
        st
    } else {
        walk(t.drop_first(), step(st, t[0]))
    }
}

/// Along the text the depth never falls below `base`, and an unescaped `;`
/// is met at depth `base` only if `semis`.
pub open spec fn kept(t: Seq<char>, st: (bool, int), base: int, semis: bool) -> bool
    decreases t.len(),
{
    t.len() == 0 || (step(st, t[0]).1 >= base && (semis || st.0 || t[0] != ';' || st.1 > base)
        && kept(t.drop_first(), step(st, t[0]), base, semis))
}

/// A text that closes every bracket it opens and leaves nothing escaped; with
/// `semis` false it has no unescaped `;` outside its brackets.
pub open spec fn balanced(t: Seq<char>, semis: bool) -> bool {
    walk(t, (false, 0)) == (false, 0int) && kept(t, (false, 0), 0, semis)
}

pub proof fn lemma_walk_append(a: Seq<char>, b: Seq<char>, st: (bool, int), base: int, semis: bool)
    ensures
        walk(a + b, st) == walk(b, walk(a, st)),
        kept(a + b, st, base, semis) == (kept(a, st, base, semis) && kept(
            b,
            walk(a, st),
            base,
            semis,
        )),
    decreases a.len(),
{
    if a.len() == 0 {
        assert(a + b =~= b);
    } else {
        assert((a + b).drop_first() =~= a.drop_first() + b);
        assert((a + b)[0] == a[0]);
        lemma_walk_append(a.drop_first(), b, step(st, a[0]), base, semis);
    }
}

pub proof fn lemma_walk_shift(t: Seq<char>, e: bool, d: int, k: int, base: int, semis: bool)
    ensures
        walk(t, (e, d + k)) == (walk(t, (e, d)).0, walk(t, (e, d)).1 + k),
        kept(t, (e, d + k), base + k, semis) == kept(t, (e, d), base, semis),
    decreases t.len(),
{
    if t.len() > 0 {
        let s1 = step((e, d), t[0]);
        let s2 = step((e, d + k), t[0]);
        assert(s2 == (s1.0, s1.1 + k));
        lemma_walk_shift(t.drop_first(), s1.0, s1.1, k, base, semis);
    }
}

/// A balanced text walked from depth `d` comes back to depth `d`, never
/// below it.
pub proof fn lemma_balanced_at(t: Seq<char>, semis: bool, d: int)
    requires
        balanced(t, semis),
    ensures
        walk(t, (false, d)) == (false, d),
        kept(t, (false, d), d, semis),
{
    lemma_walk_shift(t, false, 0, d, 0, semis);
    assert(0 + d == d);
}

/// Inside brackets, a `;` is no longer at the starting depth.
pub proof fn lemma_kept_deeper(t: Seq<char>, st: (bool, int), base: int)
    requires
        st.1 >= base + 1,
        kept(t, st, base + 1, true),
    ensures
        kept(t, st, base, false),
    decreases t.len(),
{
    if t.len() > 0 {
        lemma_kept_deeper(t.drop_first(), step(st, t[0]), base);
    }
}

pub proof fn lemma_kept_weaker(t: Seq<char>, st: (bool, int), base: int)
    requires
        kept(t, st, base, false),
    ensures
        kept(t, st, base, true),
    decreases t.len(),
{
    if t.len() > 0 {
        lemma_kept_weaker(t.drop_first(), step(st, t[0]), base);
    }
}

/// A text with no backslash, bracket or `;`.
pub open spec fn plain(t: Seq<char>) -> bool {
    forall|i: int|
        0 <= i < t.len() ==> #[trigger] t[i] != '\\' && t[i] != '[' && t[i] != ']' && t[i] != ';'
}

pub proof fn lemma_plain(t: Seq<char>, d: int, base: int, semis: bool)
    requires
        plain(t),
        d >= base,
    ensures
        walk(t, (false, d)) == (false, d),
        kept(t, (false, d), base, semis),
    decreases t.len(),
{
    if t.len() > 0 {
        assert(t[0] != '\\' && t[0] != '[' && t[0] != ']' && t[0] != ';');
        let rest = t.drop_first();
        assert(plain(rest)) by {
            assert forall|i: int| 0 <= i < rest.len() implies #[trigger] rest[i] != '\\' && rest[i]
                != '[' && rest[i] != ']' && rest[i] != ';' by {
                assert(rest[i] == t[i + 1]);
            }
        }
        lemma_plain(rest, d, base, semis);
    }
}

pub proof fn lemma_plain_balanced(t: Seq<char>)
    requires
        plain(t),
    ensures
        balanced(t, false),
{
    lemma_plain(t, 0, 0, false);
}

pub proof fn lemma_escape_front(c: char, x: Seq<char>)
    ensures
        escape(seq![c] + x) == escape_char(c) + escape(x),
{
    crate::artifact::lemma_escape_append(seq![c], x);
    let one = seq![c];
    assert(one.drop_last() =~= Seq::<char>::empty());
    assert(escape(one.drop_last()) =~= Seq::<char>::empty());
    assert(escape(one) =~= escape_char(c));
}

/// Escaped text is balanced, without `;`.
pub proof fn lemma_escape_balanced(x: Seq<char>, d: int, base: int, semis: bool)
    requires
        d >= base,
    ensures
        walk(escape(x), (false, d)) == (false, d),
        kept(escape(x), (false, d), base, semis),
    decreases x.len(),
{
    if x.len() > 0 {
        let c = x[0];
        let rest = x.drop_first();
        assert(x =~= seq![c] + rest);
        lemma_escape_front(c, rest);
        lemma_escape_balanced(rest, d, base, semis);
        let ec = escape_char(c);
        lemma_walk_append(ec, escape(rest), (false, d), base, semis);
        if is_special(c) {
            let tail = ec.drop_first();
            assert(tail =~= seq![c]);
            assert(tail.drop_first() =~= Seq::<char>::empty());
            assert(ec[0] == '\\');
            assert(step((false, d), ec[0]) == (true, d));
            assert(walk(tail.drop_first(), step((true, d), tail[0])) == (false, d));
            assert(walk(tail, (true, d)) == (false, d));
            assert(walk(ec, (false, d)) == (false, d));
            assert(kept(tail.drop_first(), (false, d), base, semis));
            assert(kept(tail, (true, d), base, semis));
            assert(kept(ec, (false, d), base, semis));
        } else {
            let tail = ec.drop_first();
            assert(tail =~= Seq::<char>::empty());
            assert(ec[0] == c);
            assert(step((false, d), c) == (false, d));
            assert(walk(tail, (false, d)) == (false, d));
            assert(kept(tail, (false, d), base, semis));
            assert(walk(ec, (false, d)) == (false, d));
            assert(kept(ec, (false, d), base, semis));
        }
    }
}


/// Splitting at `;` passes over a text that keeps its depth at or above
/// zero and has no unescaped `;` at depth zero.
pub proof fn lemma_split_segment(
    s: Seq<char>,
    i: int,
    t: Seq<char>,
    e: bool,
    d: nat,
    cur: Seq<char>,
    parts: Seq<Seq<char>>,
)
    requires
        0 <= i,
        i + t.len() <= s.len(),
        s.subrange(i, i + t.len()) == t,
        kept(t, (e, d as int), 0, false),
    ensures
        walk(t, (e, d as int)).1 >= 0,
        split_scan(s, ';', i, e, d, cur, parts) == split_scan(
            s,
            ';',
            i + t.len(),
            walk(t, (e, d as int)).0,
            walk(t, (e, d as int)).1 as nat,
            cur + t,
            parts,
        ),
    decreases t.len(),
{
    if t.len() == 0 {
        assert(cur + t =~= cur);
    } else {
        let c = t[0];
        assert(s[i] == s.subrange(i, i + t.len())[0]);
        let st2 = step((e, d as int), c);
        let rest = t.drop_first();
        assert(s.subrange(i + 1, i + 1 + rest.len()) =~= rest) by {
            assert forall|k: int| 0 <= k < rest.len() implies s.subrange(i + 1, i + 1 + rest.len())[k]
                == rest[k] by {
                assert(s[i + 1 + k] == s.subrange(i, i + t.len())[k + 1]);
            }
        }
        if !e && c != '\\' {
            assert(split_depth(';', c, d) == st2.1);
        }
        lemma_split_segment(s, i + 1, rest, st2.0, st2.1 as nat, cur.push(c), parts);
        assert(cur.push(c) + rest =~= cur + t);
    }
}

/// The bracket scanner passes over a text that keeps the depth at or above
/// one.
pub proof fn lemma_bracket_segment(s: Seq<char>, i: int, t: Seq<char>, e: bool, d: nat, start: int)
    requires
        0 <= i,
        i + t.len() <= s.len(),
        s.subrange(i, i + t.len()) == t,
        d >= 1,
        kept(t, (e, d as int), 1, true),
    ensures
        walk(t, (e, d as int)).1 >= 1,
        bracket_scan(s, i, e, d, start) == bracket_scan(
            s,
            i + t.len(),
            walk(t, (e, d as int)).0,
            walk(t, (e, d as int)).1 as nat,
            start,
        ),
    decreases t.len(),
{
    if t.len() > 0 {
        let c = t[0];
        assert(s[i] == s.subrange(i, i + t.len())[0]);
        let st2 = step((e, d as int), c);
        let rest = t.drop_first();
        assert(s.subrange(i + 1, i + 1 + rest.len()) =~= rest) by {
            assert forall|k: int| 0 <= k < rest.len() implies s.subrange(i + 1, i + 1 + rest.len())[k]
                == rest[k] by {
                assert(s[i + 1 + k] == s.subrange(i, i + t.len())[k + 1]);
            }
        }
        lemma_bracket_segment(s, i + 1, rest, st2.0, st2.1 as nat, start);
    }
}

/// Splitting at `|` passes over a text with no `|` and no backslash.
pub proof fn lemma_split_pipe_plain(
    s: Seq<char>,
    i: int,
    t: Seq<char>,
    d: nat,
    cur: Seq<char>,
    parts: Seq<Seq<char>>,
)
    requires
        0 <= i,
        i + t.len() <= s.len(),
        s.subrange(i, i + t.len()) == t,
        forall|k: int| 0 <= k < t.len() ==> #[trigger] t[k] != '|' && t[k] != '\\',
    ensures
        split_scan(s, '|', i, false, d, cur, parts) == split_scan(
            s,
            '|',
            i + t.len(),
            false,
            d,
            cur + t,
            parts,
        ),
    decreases t.len(),
{
    if t.len() == 0 {
        assert(cur + t =~= cur);
    } else {
        let c = t[0];
        assert(c != '|' && c != '\\');
        assert(s[i] == s.subrange(i, i + t.len())[0]);
        let rest = t.drop_first();
        assert(s.subrange(i + 1, i + 1 + rest.len()) =~= rest) by {
            assert forall|k: int| 0 <= k < rest.len() implies s.subrange(i + 1, i + 1 + rest.len())[k]
                == rest[k] by {
                assert(s[i + 1 + k] == s.subrange(i, i + t.len())[k + 1]);
            }
        }
        assert forall|k: int| 0 <= k < rest.len() implies #[trigger] rest[k] != '|' && rest[k]
            != '\\' by {
            assert(rest[k] == t[k + 1]);
        }
        lemma_split_pipe_plain(s, i + 1, rest, d, cur.push(c), parts);
        assert(cur.push(c) + rest =~= cur + t);
    }
}

/// Splitting at `|` passes over escaped text.
pub proof fn lemma_split_pipe_escape(
    s: Seq<char>,
    i: int,
    x: Seq<char>,
    d: nat,
    cur: Seq<char>,
    parts: Seq<Seq<char>>,
)
    requires
        0 <= i,
        i + escape(x).len() <= s.len(),
        s.subrange(i, i + escape(x).len()) == escape(x),
    ensures
        split_scan(s, '|', i, false, d, cur, parts) == split_scan(
            s,
            '|',
            i + escape(x).len(),
            false,
            d,
            cur + escape(x),
            parts,
        ),
    decreases x.len(),
{
    if x.len() == 0 {
        assert(escape(x) =~= Seq::<char>::empty());
        assert(cur + escape(x) =~= cur);
    } else {
        let c = x[0];
        let rest = x.drop_first();
        assert(x =~= seq![c] + rest);
        lemma_escape_front(c, rest);
        let ec = escape_char(c);
        let er = escape(rest);
        assert(escape(x) == ec + er);
        let n = ec.len();
        assert(s.subrange(i + n, i + n + er.len()) =~= er) by {
            assert forall|k: int| 0 <= k < er.len() implies s.subrange(i + n, i + n + er.len())[k]
                == er[k] by {
                assert(s[i + n + k] == s.subrange(i, i + escape(x).len())[n + k]);
                assert((ec + er)[n + k] == er[k]);
            }
        }
        assert(s[i] == s.subrange(i, i + escape(x).len())[0]);
        assert((ec + er)[0] == ec[0]);
        if is_special(c) {
            assert(s[i] == '\\');
            assert(s[i + 1] == s.subrange(i, i + escape(x).len())[1]);
            assert((ec + er)[1] == c);
            assert(cur.push('\\').push(c) =~= cur + ec);
            assert(split_scan(s, '|', i + 1, true, d, cur.push('\\'), parts) == split_scan(
                s,
                '|',
                i + 2,
                false,
                d,
                cur.push('\\').push(c),
                parts,
            ));
            assert(split_scan(s, '|', i, false, d, cur, parts) == split_scan(
                s,
                '|',
                i + 1,
                true,
                d,
                cur.push('\\'),
                parts,
            ));
        } else {
            assert(s[i] == c);
            assert(split_depth('|', c, d) == d);
            assert(cur.push(c) =~= cur + ec);
            assert(c != '|');
            assert(split_scan(s, '|', i, false, d, cur, parts) == split_scan(
                s,
                '|',
                i + 1,
                false,
                d,
                cur.push(c),
                parts,
            ));
        }
        lemma_split_pipe_escape(s, i + n, rest, d, cur + ec, parts);
        assert(cur + ec + er =~= cur + escape(x));
    }
}

pub proof fn lemma_cat_balanced(a: Seq<char>, b: Seq<char>, semis: bool)
    requires
        balanced(a, semis),
        balanced(b, semis),
    ensures
        balanced(a + b, semis),
{
    lemma_walk_append(a, b, (false, 0), 0, semis);
}

pub proof fn lemma_escape_balanced_any(x: Seq<char>, semis: bool)
    ensures
        balanced(escape(x), semis),
{
    lemma_escape_balanced(x, 0, 0, semis);
}

pub proof fn lemma_digits_plain(t: Seq<char>)
    requires
        all_digits(t),
    ensures
        plain(t),
{
    assert forall|i: int| 0 <= i < t.len() implies #[trigger] t[i] != '\\' && t[i] != '[' && t[i]
        != ']' && t[i] != ';' by {
        assert(is_digit(t[i]));
    }
}

pub proof fn lemma_int_text_plain(v: int)
    ensures
        plain(int_text(v)),
{
    if v < 0 {
        let m: nat = (-v) as nat;
        lemma_decimal(m);
        lemma_digits_plain(decimal(m));
        let t = int_text(v);
        assert(t == seq!['-'] + decimal(m));
        assert forall|i: int| 0 <= i < t.len() implies #[trigger] t[i] != '\\' && t[i] != '['
            && t[i] != ']' && t[i] != ';' by {
            if i > 0 {
                assert(t[i] == decimal(m)[i - 1]);
            }
        }
    } else {
        lemma_decimal(v as nat);
        lemma_digits_plain(decimal(v as nat));
    }
}

pub proof fn lemma_block_balanced(code: Seq<char>)
    requires
        balanced(code, true),
    ensures
        balanced(block(code), false),
{
    reveal_strlit("[");
    reveal_strlit("]");
    let open = "["@;
    let close = "]"@;
    assert(open.len() == 1 && open[0] == '[');
    assert(close.len() == 1 && close[0] == ']');
    assert(open.drop_first().len() == 0);
    assert(close.drop_first().len() == 0);
    assert(walk(open.drop_first(), (false, 1)) == (false, 1int));
    assert(kept(open.drop_first(), (false, 1), 0, false));
    assert(walk(open, (false, 0)) == (false, 1int));
    assert(kept(open, (false, 0), 0, false));
    lemma_balanced_at(code, true, 1);
    lemma_kept_deeper(code, (false, 1), 0);
    lemma_walk_append(open, code, (false, 0), 0, false);
    assert(walk(close.drop_first(), (false, 0)) == (false, 0int));
    assert(kept(close.drop_first(), (false, 0), 0, false));
    assert(walk(close, (false, 1)) == (false, 0int));
    assert(kept(close, (false, 1), 0, false));
    lemma_walk_append(open + code, close, (false, 0), 0, false);
}

proof fn lemma_semicolon_balanced()
    ensures
        balanced(";"@, true),
{
    reveal_strlit(";");
    let t = ";"@;
    assert(t.len() == 1 && t[0] == ';');
    assert(t.drop_first().len() == 0);
    assert(walk(t.drop_first(), (false, 0)) == (false, 0int));
    assert(kept(t.drop_first(), (false, 0), 0, true));
    assert(walk(t, (false, 0)) == (false, 0int));
    assert(kept(t, (false, 0), 0, true));
}

pub proof fn lemma_binary_name_plain(op: BinaryOperator)
    ensures
        plain(binary_name(op)),
{
    reveal_strlit("Add");
    reveal_strlit("Subtract");
    reveal_strlit("Multiply");
    reveal_strlit("Divide");
    reveal_strlit("Modulo");
    reveal_strlit("Greater");
    reveal_strlit("GreaterEqual");
    reveal_strlit("Less");
    reveal_strlit("LessEqual");
    reveal_strlit("Equal");
    reveal_strlit("NotEqual");
    reveal_strlit("And");
    reveal_strlit("Or");
}

pub proof fn lemma_unary_name_plain(op: UnaryOperator)
    ensures
        plain(unary_name(op)),
{
    reveal_strlit("Not");
    reveal_strlit("Negate");
    assert("Negate"@.len() != "Not"@.len());
}

/// The text of an instruction is balanced, with no `;` outside its
/// brackets.
pub proof fn lemma_encode_balanced(i: InstructionView)
    ensures
        balanced(encode_instruction(i), false),
    decreases i, 0int,
{
    match i {
        InstructionView::PushInt(v) => {
            reveal_strlit("PushInt:");
            lemma_plain_balanced("PushInt:"@);
            lemma_int_text_plain(v as int);
            lemma_plain_balanced(int_text(v as int));
            lemma_cat_balanced("PushInt:"@, int_text(v as int), false);
        },
        InstructionView::PushFloat(t) => {
            reveal_strlit("PushFloat:");
            lemma_plain_balanced("PushFloat:"@);
            lemma_escape_balanced_any(t, false);
            lemma_cat_balanced("PushFloat:"@, escape(t), false);
        },
        InstructionView::PushBool(b) => {
            reveal_strlit("PushBool:");
            reveal_strlit("true");
            reveal_strlit("false");
            lemma_plain_balanced("PushBool:"@);
            lemma_plain_balanced("true"@);
            lemma_plain_balanced("false"@);
            lemma_cat_balanced("PushBool:"@, "true"@, false);
            lemma_cat_balanced("PushBool:"@, "false"@, false);
        },
        InstructionView::PushString(t) => {
            reveal_strlit("PushString:");
            lemma_plain_balanced("PushString:"@);
            lemma_escape_balanced_any(t, false);
            lemma_cat_balanced("PushString:"@, escape(t), false);
        },
        InstructionView::LoadVariable(t) => {
            reveal_strlit("LoadVariable:");
            lemma_plain_balanced("LoadVariable:"@);
            lemma_escape_balanced_any(t, false);
            lemma_cat_balanced("LoadVariable:"@, escape(t), false);
        },
        InstructionView::StoreVariable(t) => {
            reveal_strlit("StoreVariable:");
            lemma_plain_balanced("StoreVariable:"@);
            lemma_escape_balanced_any(t, false);
            lemma_cat_balanced("StoreVariable:"@, escape(t), false);
        },
        InstructionView::MakeArray { length } => {
            reveal_strlit("MakeArray:");
            lemma_plain_balanced("MakeArray:"@);
            lemma_decimal(length as nat);
            lemma_digits_plain(decimal(length as nat));
            lemma_plain_balanced(decimal(length as nat));
            lemma_cat_balanced("MakeArray:"@, decimal(length as nat), false);
        },
        InstructionView::Binary { op } => {
            reveal_strlit("Binary:");
            lemma_plain_balanced("Binary:"@);
            lemma_binary_name_plain(op);
            lemma_plain_balanced(binary_name(op));
            lemma_cat_balanced("Binary:"@, binary_name(op), false);
        },
        InstructionView::Unary { op } => {
            reveal_strlit("Unary:");
            lemma_plain_balanced("Unary:"@);
            lemma_unary_name_plain(op);
            lemma_plain_balanced(unary_name(op));
            lemma_cat_balanced("Unary:"@, unary_name(op), false);
        },
        InstructionView::Call { name, argument_count } => {
            reveal_strlit("Call:");
            reveal_strlit("|");
            lemma_plain_balanced("Call:"@);
            lemma_plain_balanced("|"@);
            lemma_escape_balanced_any(name, false);
            lemma_decimal(argument_count as nat);
            lemma_digits_plain(decimal(argument_count as nat));
            lemma_plain_balanced(decimal(argument_count as nat));
            lemma_cat_balanced("Call:"@, escape(name), false);
            lemma_cat_balanced("Call:"@ + escape(name), "|"@, false);
            lemma_cat_balanced("Call:"@ + escape(name) + "|"@, decimal(argument_count as nat), false);
        },
        InstructionView::Index => {
            reveal_strlit("Index");
            lemma_plain_balanced("Index"@);
        },
        InstructionView::StoreIndex => {
            reveal_strlit("StoreIndex");
            lemma_plain_balanced("StoreIndex"@);
        },
        InstructionView::Print => {
            reveal_strlit("Print");
            lemma_plain_balanced("Print"@);
        },
        InstructionView::Return => {
            reveal_strlit("Return");
            lemma_plain_balanced("Return"@);
        },
        InstructionView::Break => {
            reveal_strlit("Break");
            lemma_plain_balanced("Break"@);
        },
        InstructionView::Continue => {
            reveal_strlit("Continue");
            lemma_plain_balanced("Continue"@);
        },
        InstructionView::ShortCircuitAnd { right } => {
            reveal_strlit("And");
            lemma_plain_balanced("And"@);
            lemma_encode_sequence_balanced(right);
            lemma_block_balanced(encode_sequence(right));
            lemma_cat_balanced("And"@, block(encode_sequence(right)), false);
        },
        InstructionView::ShortCircuitOr { right } => {
            reveal_strlit("Or");
            lemma_plain_balanced("Or"@);
            lemma_encode_sequence_balanced(right);
            lemma_block_balanced(encode_sequence(right));
            lemma_cat_balanced("Or"@, block(encode_sequence(right)), false);
        },
        InstructionView::If { then_body, else_body } => {
            reveal_strlit("If");
            lemma_plain_balanced("If"@);
            lemma_encode_sequence_balanced(then_body);
            lemma_encode_sequence_balanced(else_body);
            let a = block(encode_sequence(then_body));
            let b = block(encode_sequence(else_body));
            lemma_block_balanced(encode_sequence(then_body));
            lemma_block_balanced(encode_sequence(else_body));
            lemma_cat_balanced("If"@, a, false);
            lemma_cat_balanced("If"@ + a, b, false);
        },
        InstructionView::While { condition, body } => {
            reveal_strlit("While");
            lemma_plain_balanced("While"@);
            lemma_encode_sequence_balanced(condition);
            lemma_encode_sequence_balanced(body);
            let a = block(encode_sequence(condition));
            let b = block(encode_sequence(body));
            lemma_block_balanced(encode_sequence(condition));
            lemma_block_balanced(encode_sequence(body));
            lemma_cat_balanced("While"@, a, false);
            lemma_cat_balanced("While"@ + a, b, false);
        },
        InstructionView::For { initializer, condition, update, body } => {
            reveal_strlit("For");
            lemma_plain_balanced("For"@);
            lemma_encode_sequence_balanced(initializer);
            lemma_encode_sequence_balanced(condition);
            lemma_encode_sequence_balanced(update);
            lemma_encode_sequence_balanced(body);
            let a = block(encode_sequence(initializer));
            let b = block(encode_sequence(condition));
            let c = block(encode_sequence(update));
            let d = block(encode_sequence(body));
            lemma_block_balanced(encode_sequence(initializer));
            lemma_block_balanced(encode_sequence(condition));
            lemma_block_balanced(encode_sequence(update));
            lemma_block_balanced(encode_sequence(body));
            lemma_cat_balanced("For"@, a, false);
            lemma_cat_balanced("For"@ + a, b, false);
            lemma_cat_balanced("For"@ + a + b, c, false);
            lemma_cat_balanced("For"@ + a + b + c, d, false);
        },
    }
}

/// The text of a sequence is balanced.
pub proof fn lemma_encode_sequence_balanced(is: Seq<InstructionView>)
    ensures
        balanced(encode_sequence(is), true),
    decreases is, 1int,
{
    if is.len() == 0 {
        assert(encode_sequence(is).len() == 0);
    } else if is.len() == 1 {
        lemma_encode_balanced(is[0]);
        lemma_kept_weaker(encode_sequence(is), (false, 0), 0);
    } else {
        lemma_encode_sequence_balanced(is.drop_last());
        lemma_encode_balanced(is.last());
        lemma_kept_weaker(encode_instruction(is.last()), (false, 0), 0);
        lemma_semicolon_balanced();
        lemma_cat_balanced(encode_sequence(is.drop_last()), ";"@, true);
        lemma_cat_balanced(encode_sequence(is.drop_last()) + ";"@, encode_instruction(is.last()), true);
    }
}

pub proof fn lemma_starts(p: Seq<char>, rest: Seq<char>)
    ensures
        starts_with(p + rest, p),
        after(p + rest, p) == rest,
{
    assert((p + rest).subrange(0, p.len() as int) =~= p);
    assert((p + rest).subrange(p.len() as int, (p + rest).len() as int) =~= rest);
}

pub proof fn lemma_not_starts(t: Seq<char>, q: Seq<char>, k: int)
    requires
        0 <= k < q.len(),
        k < t.len(),
        t[k] != q[k],
    ensures
        !starts_with(t, q),
        t != q,
{
    if starts_with(t, q) {
        assert(t.subrange(0, q.len() as int)[k] == t[k]);
    }
}

pub proof fn lemma_decode_binary_name(op: BinaryOperator)
    ensures
        decode_binary(binary_name(op)) == Ok::<BinaryOperator, Seq<char>>(op),
{
    reveal_strlit("Add");
    reveal_strlit("Subtract");
    reveal_strlit("Multiply");
    reveal_strlit("Divide");
    reveal_strlit("Modulo");
    reveal_strlit("Greater");
    reveal_strlit("GreaterEqual");
    reveal_strlit("Less");
    reveal_strlit("LessEqual");
    reveal_strlit("Equal");
    reveal_strlit("NotEqual");
    reveal_strlit("And");
    reveal_strlit("Or");
    let names = seq![
        "Add"@,
        "Subtract"@,
        "Multiply"@,
        "Divide"@,
        "Modulo"@,
        "Greater"@,
        "GreaterEqual"@,
        "Less"@,
        "LessEqual"@,
        "Equal"@,
        "NotEqual"@,
        "And"@,
        "Or"@,
    ];
    assert(names[0].len() == 3 && names[1].len() == 8 && names[2].len() == 8 && names[3].len() == 6
        && names[4].len() == 6 && names[5].len() == 7 && names[6].len() == 12 && names[7].len() == 4
        && names[8].len() == 9 && names[9].len() == 5 && names[10].len() == 8 && names[11].len() == 3
        && names[12].len() == 2);
    assert("Subtract"@[0] != "Multiply"@[0]);
    assert("Subtract"@[0] != "NotEqual"@[0]);
    assert("Multiply"@[0] != "NotEqual"@[0]);
    assert("Modulo"@[0] != "Divide"@[0]);
    assert("And"@[1] != "Add"@[1]);
}

pub proof fn lemma_decode_unary_name(op: UnaryOperator)
    ensures
        decode_unary(unary_name(op)) == Ok::<UnaryOperator, Seq<char>>(op),
{
    reveal_strlit("Not");
    reveal_strlit("Negate");
    assert("Negate"@.len() != "Not"@.len());
}

/// The parts of a call's text at its unescaped `|`.
pub proof fn lemma_split_call(name: Seq<char>, n: usize)
    ensures
        split_escaped(escape(name) + "|"@ + decimal(n as nat), '|') == seq![
            escape(name),
            decimal(n as nat),
        ],
{
    reveal_strlit("|");
    let e = escape(name);
    let digits = decimal(n as nat);
    let s = e + "|"@ + digits;
    let el: int = e.len() as int;
    let dl: int = digits.len() as int;
    assert(s.subrange(0, el) =~= e);
    lemma_split_pipe_escape(s, 0, name, 0, seq![], seq![]);
    assert(Seq::<char>::empty() + e =~= e);
    assert(s[el] == '|');
    assert(split_depth('|', '|', 0) == 0);
    assert(split_scan(s, '|', el, false, 0, e, seq![]) == split_scan(
        s,
        '|',
        el + 1,
        false,
        0,
        seq![],
        seq![e],
    ));
    lemma_decimal(n as nat);
    assert forall|k: int| 0 <= k < digits.len() implies #[trigger] digits[k] != '|' && digits[k]
        != '\\' by {
        assert(is_digit(digits[k]));
    }
    assert(s.subrange(el + 1, el + 1 + dl) =~= digits);
    lemma_split_pipe_plain(s, el + 1, digits, 0, seq![], seq![e]);
    assert(Seq::<char>::empty() + digits =~= digits);
    assert(el + 1 + dl == s.len());
    assert(seq![e].push(digits) =~= seq![e, digits]);
}

/// The first block of `block(code) + rest` is `code`.
pub proof fn lemma_extract_block(code: Seq<char>, rest: Seq<char>)
    requires
        balanced(code, true),
    ensures
        extract_bracketed(block(code) + rest) == Ok::<(int, int), Seq<char>>(
            (1, 1 + code.len() as int),
        ),
{
    reveal_strlit("[");
    reveal_strlit("]");
    let s = block(code) + rest;
    let cl: int = code.len() as int;
    assert(s[0] == '[');
    assert(s.subrange(1, 1 + cl) =~= code);
    assert(s[1 + cl] == ']');
    lemma_balanced_at(code, true, 1);
    lemma_bracket_segment(s, 1, code, false, 1, 1);
    assert(bracket_scan(s, 0, false, 0, -1) == bracket_scan(s, 1, false, 1, 1));
}

pub proof fn lemma_read_one(x: Seq<InstructionView>)
    ensures
        read_blocks(block(encode_sequence(x)), 1) == Ok::<Seq<Seq<char>>, Seq<char>>(
            seq![encode_sequence(x)],
        ),
{
    let a = encode_sequence(x);
    lemma_encode_sequence_balanced(x);
    lemma_read_blocks_front(a, Seq::<char>::empty(), 1);
    assert(block(a) + Seq::<char>::empty() =~= block(a));
    assert(read_blocks(Seq::<char>::empty(), 0) == Ok::<Seq<Seq<char>>, Seq<char>>(seq![]));
    assert(seq![a] + Seq::<Seq<char>>::empty() =~= seq![a]);
}

pub proof fn lemma_read_blocks_front(code: Seq<char>, rest: Seq<char>, n: nat)
    requires
        balanced(code, true),
        n >= 1,
    ensures
        read_blocks(block(code) + rest, n) == match read_blocks(rest, (n - 1) as nat) {
            Ok(bs) => Ok(seq![code] + bs),
            Err(e) => Err(e),
        },
{
    reveal_strlit("[");
    reveal_strlit("]");
    lemma_extract_block(code, rest);
    let s = block(code) + rest;
    let cl: int = code.len() as int;
    assert(s.subrange(1, 1 + cl) =~= code);
    assert(s.subrange(2 + cl, s.len() as int) =~= rest);
}

pub proof fn lemma_read_two(x: Seq<InstructionView>, y: Seq<InstructionView>)
    ensures
        read_blocks(block(encode_sequence(x)) + block(encode_sequence(y)), 2) == Ok::<
            Seq<Seq<char>>,
            Seq<char>,
        >(seq![encode_sequence(x), encode_sequence(y)]),
{
    lemma_encode_sequence_balanced(x);
    lemma_read_one(y);
    lemma_read_blocks_front(encode_sequence(x), block(encode_sequence(y)), 2);
    assert(seq![encode_sequence(x)] + seq![encode_sequence(y)] =~= seq![
        encode_sequence(x),
        encode_sequence(y),
    ]);
}

pub proof fn lemma_read_four(
    w: Seq<InstructionView>,
    x: Seq<InstructionView>,
    y: Seq<InstructionView>,
    z: Seq<InstructionView>,
)
    ensures
        read_blocks(
            block(encode_sequence(w)) + block(encode_sequence(x)) + block(encode_sequence(y))
                + block(encode_sequence(z)),
            4,
        ) == Ok::<Seq<Seq<char>>, Seq<char>>(
            seq![encode_sequence(w), encode_sequence(x), encode_sequence(y), encode_sequence(z)],
        ),
{
    let a = block(encode_sequence(w));
    let b = block(encode_sequence(x));
    let c = block(encode_sequence(y));
    let d = block(encode_sequence(z));
    lemma_encode_sequence_balanced(w);
    lemma_encode_sequence_balanced(x);
    lemma_read_two(y, z);
    lemma_read_blocks_front(encode_sequence(x), c + d, 3);
    assert(a + b + c + d =~= a + (b + (c + d)));
    assert(b + c + d =~= b + (c + d));
    lemma_read_blocks_front(encode_sequence(w), b + (c + d), 4);
    assert(seq![encode_sequence(w)] + (seq![encode_sequence(x)] + seq![
        encode_sequence(y),
        encode_sequence(z),
    ]) =~= seq![encode_sequence(w), encode_sequence(x), encode_sequence(y), encode_sequence(z)]);
}

pub proof fn lemma_assemble_names()
    ensures
        "While"@ != "If"@,
        "And"@ != "If"@,
        "And"@ != "While"@,
        "Or"@ != "If"@,
        "Or"@ != "While"@,
        "Or"@ != "And"@,
        "For"@ != "If"@,
        "For"@ != "While"@,
        "For"@ != "And"@,
        "For"@ != "Or"@,
{
    reveal_strlit("If");
    reveal_strlit("While");
    reveal_strlit("And");
    reveal_strlit("Or");
    reveal_strlit("For");
    assert("Or"@[0] != "If"@[0]);
    assert("For"@[0] != "And"@[0]);
}

/// The checks before that of `Print` fail on a text that starts with it.
pub proof fn lemma_dispatch_print(payload: Seq<char>)
    ensures
        starts_with("Print"@ + payload, "Print"@),
        after("Print"@ + payload, "Print"@) == payload,
{
    reveal_strlit("Print");
    let t = "Print"@ + payload;
    lemma_starts("Print"@, payload);
}

/// The checks before that of `Return` fail on a text that starts with it.
pub proof fn lemma_dispatch_return(payload: Seq<char>)
    ensures
        (("Return"@ + payload) != "Print"@),
        starts_with("Return"@ + payload, "Return"@),
        after("Return"@ + payload, "Return"@) == payload,
{
    reveal_strlit("Return");
    reveal_strlit("Print");
    let t = "Return"@ + payload;
    lemma_starts("Return"@, payload);
    assert(t[0] == "Return"@[0]);
    lemma_not_starts(t, "Print"@, 0);
}

/// The checks before that of `Index` fail on a text that starts with it.
pub proof fn lemma_dispatch_index(payload: Seq<char>)
    ensures
        (("Index"@ + payload) != "Print"@),
        (("Index"@ + payload) != "Return"@),
        starts_with("Index"@ + payload, "Index"@),
        after("Index"@ + payload, "Index"@) == payload,
{
    reveal_strlit("Index");
    reveal_strlit("Print");
    reveal_strlit("Return");
    let t = "Index"@ + payload;
    lemma_starts("Index"@, payload);
    assert(t[0] == "Index"@[0]);
    lemma_not_starts(t, "Print"@, 0);
    assert(t[0] == "Index"@[0]);
    lemma_not_starts(t, "Return"@, 0);
}

/// The checks before that of `StoreIndex` fail on a text that starts with it.
pub proof fn lemma_dispatch_storeindex(payload: Seq<char>)
    ensures
        (("StoreIndex"@ + payload) != "Print"@),
        (("StoreIndex"@ + payload) != "Return"@),
        (("StoreIndex"@ + payload) != "Index"@),
        starts_with("StoreIndex"@ + payload, "StoreIndex"@),
        after("StoreIndex"@ + payload, "StoreIndex"@) == payload,
{
    reveal_strlit("StoreIndex");
    reveal_strlit("Print");
    reveal_strlit("Return");
    reveal_strlit("Index");
    let t = "StoreIndex"@ + payload;
    lemma_starts("StoreIndex"@, payload);
    assert(t[0] == "StoreIndex"@[0]);
    lemma_not_starts(t, "Print"@, 0);
    assert(t[0] == "StoreIndex"@[0]);
    lemma_not_starts(t, "Return"@, 0);
    assert(t[0] == "StoreIndex"@[0]);
    lemma_not_starts(t, "Index"@, 0);
}

/// The checks before that of `Break` fail on a text that starts with it.
pub proof fn lemma_dispatch_break(payload: Seq<char>)
    ensures
        (("Break"@ + payload) != "Print"@),
        (("Break"@ + payload) != "Return"@),
        (("Break"@ + payload) != "Index"@),
        (("Break"@ + payload) != "StoreIndex"@),
        starts_with("Break"@ + payload, "Break"@),
        after("Break"@ + payload, "Break"@) == payload,
{
    reveal_strlit("Break");
    reveal_strlit("Print");
    reveal_strlit("Return");
    reveal_strlit("Index");
    reveal_strlit("StoreIndex");
    let t = "Break"@ + payload;
    lemma_starts("Break"@, payload);
    assert(t[0] == "Break"@[0]);
    lemma_not_starts(t, "Print"@, 0);
    assert(t[0] == "Break"@[0]);
    lemma_not_starts(t, "Return"@, 0);
    assert(t[0] == "Break"@[0]);
    lemma_not_starts(t, "Index"@, 0);
    assert(t[0] == "Break"@[0]);
    lemma_not_starts(t, "StoreIndex"@, 0);
}

/// The checks before that of `Continue` fail on a text that starts with it.
pub proof fn lemma_dispatch_continue(payload: Seq<char>)
    ensures
        (("Continue"@ + payload) != "Print"@),
        (("Continue"@ + payload) != "Return"@),
        (("Continue"@ + payload) != "Index"@),
        (("Continue"@ + payload) != "StoreIndex"@),
        (("Continue"@ + payload) != "Break"@),
        starts_with("Continue"@ + payload, "Continue"@),
        after("Continue"@ + payload, "Continue"@) == payload,
{
    reveal_strlit("Continue");
    reveal_strlit("Print");
    reveal_strlit("Return");
    reveal_strlit("Index");
    reveal_strlit("StoreIndex");
    reveal_strlit("Break");
    let t = "Continue"@ + payload;
    lemma_starts("Continue"@, payload);
    assert(t[0] == "Continue"@[0]);
    lemma_not_starts(t, "Print"@, 0);
    assert(t[0] == "Continue"@[0]);
    lemma_not_starts(t, "Return"@, 0);
    assert(t[0] == "Continue"@[0]);
    lemma_not_starts(t, "Index"@, 0);
    assert(t[0] == "Continue"@[0]);
    lemma_not_starts(t, "StoreIndex"@, 0);
    assert(t[0] == "Continue"@[0]);
    lemma_not_starts(t, "Break"@, 0);
}

/// The checks before that of `PushInt:` fail on a text that starts with it.
pub proof fn lemma_dispatch_pushint(payload: Seq<char>)
    ensures
        (("PushInt:"@ + payload) != "Print"@),
        (("PushInt:"@ + payload) != "Return"@),
        (("PushInt:"@ + payload) != "Index"@),
        (("PushInt:"@ + payload) != "StoreIndex"@),
        (("PushInt:"@ + payload) != "Break"@),
        (("PushInt:"@ + payload) != "Continue"@),
        starts_with("PushInt:"@ + payload, "PushInt:"@),
        after("PushInt:"@ + payload, "PushInt:"@) == payload,
{
    reveal_strlit("PushInt:");
    reveal_strlit("Print");
    reveal_strlit("Return");
    reveal_strlit("Index");
    reveal_strlit("StoreIndex");
    reveal_strlit("Break");
    reveal_strlit("Continue");
    let t = "PushInt:"@ + payload;
    lemma_starts("PushInt:"@, payload);
    assert(t[1] == "PushInt:"@[1]);
    lemma_not_starts(t, "Print"@, 1);
    assert(t[0] == "PushInt:"@[0]);
    lemma_not_starts(t, "Return"@, 0);
    assert(t[0] == "PushInt:"@[0]);
    lemma_not_starts(t, "Index"@, 0);
    assert(t[0] == "PushInt:"@[0]);
    lemma_not_starts(t, "StoreIndex"@, 0);
    assert(t[0] == "PushInt:"@[0]);
    lemma_not_starts(t, "Break"@, 0);
    assert(t[0] == "PushInt:"@[0]);
    lemma_not_starts(t, "Continue"@, 0);
}

/// The checks before that of `PushFloat:` fail on a text that starts with it.
pub proof fn lemma_dispatch_pushfloat(payload: Seq<char>)
    ensures
        (("PushFloat:"@ + payload) != "Print"@),
        (("PushFloat:"@ + payload) != "Return"@),
        (("PushFloat:"@ + payload) != "Index"@),
        (("PushFloat:"@ + payload) != "StoreIndex"@),
        (("PushFloat:"@ + payload) != "Break"@),
        (("PushFloat:"@ + payload) != "Continue"@),
        !starts_with("PushFloat:"@ + payload, "PushInt:"@),
        starts_with("PushFloat:"@ + payload, "PushFloat:"@),
        after("PushFloat:"@ + payload, "PushFloat:"@) == payload,
{
    reveal_strlit("PushFloat:");
    reveal_strlit("Print");
    reveal_strlit("Return");
    reveal_strlit("Index");
    reveal_strlit("StoreIndex");
    reveal_strlit("Break");
    reveal_strlit("Continue");
    reveal_strlit("PushInt:");
    let t = "PushFloat:"@ + payload;
    lemma_starts("PushFloat:"@, payload);
    assert(t[1] == "PushFloat:"@[1]);
    lemma_not_starts(t, "Print"@, 1);
    assert(t[0] == "PushFloat:"@[0]);
    lemma_not_starts(t, "Return"@, 0);
    assert(t[0] == "PushFloat:"@[0]);
    lemma_not_starts(t, "Index"@, 0);
    assert(t[0] == "PushFloat:"@[0]);
    lemma_not_starts(t, "StoreIndex"@, 0);
    assert(t[0] == "PushFloat:"@[0]);
    lemma_not_starts(t, "Break"@, 0);
    assert(t[0] == "PushFloat:"@[0]);
    lemma_not_starts(t, "Continue"@, 0);
    assert(t[4] == "PushFloat:"@[4]);
    lemma_not_starts(t, "PushInt:"@, 4);
}

/// The checks before that of `PushBool:` fail on a text that starts with it.
pub proof fn lemma_dispatch_pushbool(payload: Seq<char>)
    ensures
        (("PushBool:"@ + payload) != "Print"@),
        (("PushBool:"@ + payload) != "Return"@),
        (("PushBool:"@ + payload) != "Index"@),
        (("PushBool:"@ + payload) != "StoreIndex"@),
        (("PushBool:"@ + payload) != "Break"@),
        (("PushBool:"@ + payload) != "Continue"@),
        !starts_with("PushBool:"@ + payload, "PushInt:"@),
        !starts_with("PushBool:"@ + payload, "PushFloat:"@),
        starts_with("PushBool:"@ + payload, "PushBool:"@),
        after("PushBool:"@ + payload, "PushBool:"@) == payload,
{
    reveal_strlit("PushBool:");
    reveal_strlit("Print");
    reveal_strlit("Return");
    reveal_strlit("Index");
    reveal_strlit("StoreIndex");
    reveal_strlit("Break");
    reveal_strlit("Continue");
    reveal_strlit("PushInt:");
    reveal_strlit("PushFloat:");
    let t = "PushBool:"@ + payload;
    lemma_starts("PushBool:"@, payload);
    assert(t[1] == "PushBool:"@[1]);
    lemma_not_starts(t, "Print"@, 1);
    assert(t[0] == "PushBool:"@[0]);
    lemma_not_starts(t, "Return"@, 0);
    assert(t[0] == "PushBool:"@[0]);
    lemma_not_starts(t, "Index"@, 0);
    assert(t[0] == "PushBool:"@[0]);
    lemma_not_starts(t, "StoreIndex"@, 0);
    assert(t[0] == "PushBool:"@[0]);
    lemma_not_starts(t, "Break"@, 0);
    assert(t[0] == "PushBool:"@[0]);
    lemma_not_starts(t, "Continue"@, 0);
    assert(t[4] == "PushBool:"@[4]);
    lemma_not_starts(t, "PushInt:"@, 4);
    assert(t[4] == "PushBool:"@[4]);
    lemma_not_starts(t, "PushFloat:"@, 4);
}

/// The checks before that of `PushString:` fail on a text that starts with it.
pub proof fn lemma_dispatch_pushstring(payload: Seq<char>)
    ensures
        (("PushString:"@ + payload) != "Print"@),
        (("PushString:"@ + payload) != "Return"@),
        (("PushString:"@ + payload) != "Index"@),
        (("PushString:"@ + payload) != "StoreIndex"@),
        (("PushString:"@ + payload) != "Break"@),
        (("PushString:"@ + payload) != "Continue"@),
        !starts_with("PushString:"@ + payload, "PushInt:"@),
        !starts_with("PushString:"@ + payload, "PushFloat:"@),
        !starts_with("PushString:"@ + payload, "PushBool:"@),
        starts_with("PushString:"@ + payload, "PushString:"@),
        after("PushString:"@ + payload, "PushString:"@) == payload,
{
    reveal_strlit("PushString:");
    reveal_strlit("Print");
    reveal_strlit("Return");
    reveal_strlit("Index");
    reveal_strlit("StoreIndex");
    reveal_strlit("Break");
    reveal_strlit("Continue");
    reveal_strlit("PushInt:");
    reveal_strlit("PushFloat:");
    reveal_strlit("PushBool:");
    let t = "PushString:"@ + payload;
    lemma_starts("PushString:"@, payload);
    assert(t[1] == "PushString:"@[1]);
    lemma_not_starts(t, "Print"@, 1);
    assert(t[0] == "PushString:"@[0]);
    lemma_not_starts(t, "Return"@, 0);
    assert(t[0] == "PushString:"@[0]);
    lemma_not_starts(t, "Index"@, 0);
    assert(t[0] == "PushString:"@[0]);
    lemma_not_starts(t, "StoreIndex"@, 0);
    assert(t[0] == "PushString:"@[0]);
    lemma_not_starts(t, "Break"@, 0);
    assert(t[0] == "PushString:"@[0]);
    lemma_not_starts(t, "Continue"@, 0);
    assert(t[4] == "PushString:"@[4]);
    lemma_not_starts(t, "PushInt:"@, 4);
    assert(t[4] == "PushString:"@[4]);
    lemma_not_starts(t, "PushFloat:"@, 4);
    assert(t[4] == "PushString:"@[4]);
    lemma_not_starts(t, "PushBool:"@, 4);
}

/// The checks before that of `LoadVariable:` fail on a text that starts with it.
pub proof fn lemma_dispatch_loadvariable(payload: Seq<char>)
    ensures
        (("LoadVariable:"@ + payload) != "Print"@),
        (("LoadVariable:"@ + payload) != "Return"@),
        (("LoadVariable:"@ + payload) != "Index"@),
        (("LoadVariable:"@ + payload) != "StoreIndex"@),
        (("LoadVariable:"@ + payload) != "Break"@),
        (("LoadVariable:"@ + payload) != "Continue"@),
        !starts_with("LoadVariable:"@ + payload, "PushInt:"@),
        !starts_with("LoadVariable:"@ + payload, "PushFloat:"@),
        !starts_with("LoadVariable:"@ + payload, "PushBool:"@),
        !starts_with("LoadVariable:"@ + payload, "PushString:"@),
        starts_with("LoadVariable:"@ + payload, "LoadVariable:"@),
        after("LoadVariable:"@ + payload, "LoadVariable:"@) == payload,
{
    reveal_strlit("LoadVariable:");
    reveal_strlit("Print");
    reveal_strlit("Return");
    reveal_strlit("Index");
    reveal_strlit("StoreIndex");
    reveal_strlit("Break");
    reveal_strlit("Continue");
    reveal_strlit("PushInt:");
    reveal_strlit("PushFloat:");
    reveal_strlit("PushBool:");
    reveal_strlit("PushString:");
    let t = "LoadVariable:"@ + payload;
    lemma_starts("LoadVariable:"@, payload);
    assert(t[0] == "LoadVariable:"@[0]);
    lemma_not_starts(t, "Print"@, 0);
    assert(t[0] == "LoadVariable:"@[0]);
    lemma_not_starts(t, "Return"@, 0);
    assert(t[0] == "LoadVariable:"@[0]);
    lemma_not_starts(t, "Index"@, 0);
    assert(t[0] == "LoadVariable:"@[0]);
    lemma_not_starts(t, "StoreIndex"@, 0);
    assert(t[0] == "LoadVariable:"@[0]);
    lemma_not_starts(t, "Break"@, 0);
    assert(t[0] == "LoadVariable:"@[0]);
    lemma_not_starts(t, "Continue"@, 0);
    assert(t[0] == "LoadVariable:"@[0]);
    lemma_not_starts(t, "PushInt:"@, 0);
    assert(t[0] == "LoadVariable:"@[0]);
    lemma_not_starts(t, "PushFloat:"@, 0);
    assert(t[0] == "LoadVariable:"@[0]);
    lemma_not_starts(t, "PushBool:"@, 0);
    assert(t[0] == "LoadVariable:"@[0]);
    lemma_not_starts(t, "PushString:"@, 0);
}

/// The checks before that of `StoreVariable:` fail on a text that starts with it.
pub proof fn lemma_dispatch_storevariable(payload: Seq<char>)
    ensures
        (("StoreVariable:"@ + payload) != "Print"@),
        (("StoreVariable:"@ + payload) != "Return"@),
        (("StoreVariable:"@ + payload) != "Index"@),
        (("StoreVariable:"@ + payload) != "StoreIndex"@),
        (("StoreVariable:"@ + payload) != "Break"@),
        (("StoreVariable:"@ + payload) != "Continue"@),
        !starts_with("StoreVariable:"@ + payload, "PushInt:"@),
        !starts_with("StoreVariable:"@ + payload, "PushFloat:"@),
        !starts_with("StoreVariable:"@ + payload, "PushBool:"@),
        !starts_with("StoreVariable:"@ + payload, "PushString:"@),
        !starts_with("StoreVariable:"@ + payload, "LoadVariable:"@),
        starts_with("StoreVariable:"@ + payload, "StoreVariable:"@),
        after("StoreVariable:"@ + payload, "StoreVariable:"@) == payload,
{
    reveal_strlit("StoreVariable:");
    reveal_strlit("Print");
    reveal_strlit("Return");
    reveal_strlit("Index");
    reveal_strlit("StoreIndex");
    reveal_strlit("Break");
    reveal_strlit("Continue");
    reveal_strlit("PushInt:");
    reveal_strlit("PushFloat:");
    reveal_strlit("PushBool:");
    reveal_strlit("PushString:");
    reveal_strlit("LoadVariable:");
    let t = "StoreVariable:"@ + payload;
    lemma_starts("StoreVariable:"@, payload);
    assert(t[0] == "StoreVariable:"@[0]);
    lemma_not_starts(t, "Print"@, 0);
    assert(t[0] == "StoreVariable:"@[0]);
    lemma_not_starts(t, "Return"@, 0);
    assert(t[0] == "StoreVariable:"@[0]);
    lemma_not_starts(t, "Index"@, 0);
    assert(t[5] == "StoreVariable:"@[5]);
    lemma_not_starts(t, "StoreIndex"@, 5);
    assert(t[0] == "StoreVariable:"@[0]);
    lemma_not_starts(t, "Break"@, 0);
    assert(t[0] == "StoreVariable:"@[0]);
    lemma_not_starts(t, "Continue"@, 0);
    assert(t[0] == "StoreVariable:"@[0]);
    lemma_not_starts(t, "PushInt:"@, 0);
    assert(t[0] == "StoreVariable:"@[0]);
    lemma_not_starts(t, "PushFloat:"@, 0);
    assert(t[0] == "StoreVariable:"@[0]);
    lemma_not_starts(t, "PushBool:"@, 0);
    assert(t[0] == "StoreVariable:"@[0]);
    lemma_not_starts(t, "PushString:"@, 0);
    assert(t[0] == "StoreVariable:"@[0]);
    lemma_not_starts(t, "LoadVariable:"@, 0);
}

/// The checks before that of `MakeArray:` fail on a text that starts with it.
pub proof fn lemma_dispatch_makearray(payload: Seq<char>)
    ensures
        (("MakeArray:"@ + payload) != "Print"@),
        (("MakeArray:"@ + payload) != "Return"@),
        (("MakeArray:"@ + payload) != "Index"@),
        (("MakeArray:"@ + payload) != "StoreIndex"@),
        (("MakeArray:"@ + payload) != "Break"@),
        (("MakeArray:"@ + payload) != "Continue"@),
        !starts_with("MakeArray:"@ + payload, "PushInt:"@),
        !starts_with("MakeArray:"@ + payload, "PushFloat:"@),
        !starts_with("MakeArray:"@ + payload, "PushBool:"@),
        !starts_with("MakeArray:"@ + payload, "PushString:"@),
        !starts_with("MakeArray:"@ + payload, "LoadVariable:"@),
        !starts_with("MakeArray:"@ + payload, "StoreVariable:"@),
        starts_with("MakeArray:"@ + payload, "MakeArray:"@),
        after("MakeArray:"@ + payload, "MakeArray:"@) == payload,
{
    reveal_strlit("MakeArray:");
    reveal_strlit("Print");
    reveal_strlit("Return");
    reveal_strlit("Index");
    reveal_strlit("StoreIndex");
    reveal_strlit("Break");
    reveal_strlit("Continue");
    reveal_strlit("PushInt:");
    reveal_strlit("PushFloat:");
    reveal_strlit("PushBool:");
    reveal_strlit("PushString:");
    reveal_strlit("LoadVariable:");
    reveal_strlit("StoreVariable:");
    let t = "MakeArray:"@ + payload;
    lemma_starts("MakeArray:"@, payload);
    assert(t[0] == "MakeArray:"@[0]);
    lemma_not_starts(t, "Print"@, 0);
    assert(t[0] == "MakeArray:"@[0]);
    lemma_not_starts(t, "Return"@, 0);
    assert(t[0] == "MakeArray:"@[0]);
    lemma_not_starts(t, "Index"@, 0);
    assert(t[0] == "MakeArray:"@[0]);
    lemma_not_starts(t, "StoreIndex"@, 0);
    assert(t[0] == "MakeArray:"@[0]);
    lemma_not_starts(t, "Break"@, 0);
    assert(t[0] == "MakeArray:"@[0]);
    lemma_not_starts(t, "Continue"@, 0);
    assert(t[0] == "MakeArray:"@[0]);
    lemma_not_starts(t, "PushInt:"@, 0);
    assert(t[0] == "MakeArray:"@[0]);
    lemma_not_starts(t, "PushFloat:"@, 0);
    assert(t[0] == "MakeArray:"@[0]);
    lemma_not_starts(t, "PushBool:"@, 0);
    assert(t[0] == "MakeArray:"@[0]);
    lemma_not_starts(t, "PushString:"@, 0);
    assert(t[0] == "MakeArray:"@[0]);
    lemma_not_starts(t, "LoadVariable:"@, 0);
    assert(t[0] == "MakeArray:"@[0]);
    lemma_not_starts(t, "StoreVariable:"@, 0);
}

/// The checks before that of `Binary:` fail on a text that starts with it.
pub proof fn lemma_dispatch_binary(payload: Seq<char>)
    ensures
        (("Binary:"@ + payload) != "Print"@),
        (("Binary:"@ + payload) != "Return"@),
        (("Binary:"@ + payload) != "Index"@),
        (("Binary:"@ + payload) != "StoreIndex"@),
        (("Binary:"@ + payload) != "Break"@),
        (("Binary:"@ + payload) != "Continue"@),
        !starts_with("Binary:"@ + payload, "PushInt:"@),
        !starts_with("Binary:"@ + payload, "PushFloat:"@),
        !starts_with("Binary:"@ + payload, "PushBool:"@),
        !starts_with("Binary:"@ + payload, "PushString:"@),
        !starts_with("Binary:"@ + payload, "LoadVariable:"@),
        !starts_with("Binary:"@ + payload, "StoreVariable:"@),
        !starts_with("Binary:"@ + payload, "MakeArray:"@),
        starts_with("Binary:"@ + payload, "Binary:"@),
        after("Binary:"@ + payload, "Binary:"@) == payload,
{
    reveal_strlit("Binary:");
    reveal_strlit("Print");
    reveal_strlit("Return");
    reveal_strlit("Index");
    reveal_strlit("StoreIndex");
    reveal_strlit("Break");
    reveal_strlit("Continue");
    reveal_strlit("PushInt:");
    reveal_strlit("PushFloat:");
    reveal_strlit("PushBool:");
    reveal_strlit("PushString:");
    reveal_strlit("LoadVariable:");
    reveal_strlit("StoreVariable:");
    reveal_strlit("MakeArray:");
    let t = "Binary:"@ + payload;
    lemma_starts("Binary:"@, payload);
    assert(t[0] == "Binary:"@[0]);
    lemma_not_starts(t, "Print"@, 0);
    assert(t[0] == "Binary:"@[0]);
    lemma_not_starts(t, "Return"@, 0);
    assert(t[0] == "Binary:"@[0]);
    lemma_not_starts(t, "Index"@, 0);
    assert(t[0] == "Binary:"@[0]);
    lemma_not_starts(t, "StoreIndex"@, 0);
    assert(t[1] == "Binary:"@[1]);
    lemma_not_starts(t, "Break"@, 1);
    assert(t[0] == "Binary:"@[0]);
    lemma_not_starts(t, "Continue"@, 0);
    assert(t[0] == "Binary:"@[0]);
    lemma_not_starts(t, "PushInt:"@, 0);
    assert(t[0] == "Binary:"@[0]);
    lemma_not_starts(t, "PushFloat:"@, 0);
    assert(t[0] == "Binary:"@[0]);
    lemma_not_starts(t, "PushBool:"@, 0);
    assert(t[0] == "Binary:"@[0]);
    lemma_not_starts(t, "PushString:"@, 0);
    assert(t[0] == "Binary:"@[0]);
    lemma_not_starts(t, "LoadVariable:"@, 0);
    assert(t[0] == "Binary:"@[0]);
    lemma_not_starts(t, "StoreVariable:"@, 0);
    assert(t[0] == "Binary:"@[0]);
    lemma_not_starts(t, "MakeArray:"@, 0);
}

/// The checks before that of `Unary:` fail on a text that starts with it.
pub proof fn lemma_dispatch_unary(payload: Seq<char>)
    ensures
        (("Unary:"@ + payload) != "Print"@),
        (("Unary:"@ + payload) != "Return"@),
        (("Unary:"@ + payload) != "Index"@),
        (("Unary:"@ + payload) != "StoreIndex"@),
        (("Unary:"@ + payload) != "Break"@),
        (("Unary:"@ + payload) != "Continue"@),
        !starts_with("Unary:"@ + payload, "PushInt:"@),
        !starts_with("Unary:"@ + payload, "PushFloat:"@),
        !starts_with("Unary:"@ + payload, "PushBool:"@),
        !starts_with("Unary:"@ + payload, "PushString:"@),
        !starts_with("Unary:"@ + payload, "LoadVariable:"@),
        !starts_with("Unary:"@ + payload, "StoreVariable:"@),
        !starts_with("Unary:"@ + payload, "MakeArray:"@),
        !starts_with("Unary:"@ + payload, "Binary:"@),
        starts_with("Unary:"@ + payload, "Unary:"@),
        after("Unary:"@ + payload, "Unary:"@) == payload,
{
    reveal_strlit("Unary:");
    reveal_strlit("Print");
    reveal_strlit("Return");
    reveal_strlit("Index");
    reveal_strlit("StoreIndex");
    reveal_strlit("Break");
    reveal_strlit("Continue");
    reveal_strlit("PushInt:");
    reveal_strlit("PushFloat:");
    reveal_strlit("PushBool:");
    reveal_strlit("PushString:");
    reveal_strlit("LoadVariable:");
    reveal_strlit("StoreVariable:");
    reveal_strlit("MakeArray:");
    reveal_strlit("Binary:");
    let t = "Unary:"@ + payload;
    lemma_starts("Unary:"@, payload);
    assert(t[0] == "Unary:"@[0]);
    lemma_not_starts(t, "Print"@, 0);
    assert(t[0] == "Unary:"@[0]);
    lemma_not_starts(t, "Return"@, 0);
    assert(t[0] == "Unary:"@[0]);
    lemma_not_starts(t, "Index"@, 0);
    assert(t[0] == "Unary:"@[0]);
    lemma_not_starts(t, "StoreIndex"@, 0);
    assert(t[0] == "Unary:"@[0]);
    lemma_not_starts(t, "Break"@, 0);
    assert(t[0] == "Unary:"@[0]);
    lemma_not_starts(t, "Continue"@, 0);
    assert(t[0] == "Unary:"@[0]);
    lemma_not_starts(t, "PushInt:"@, 0);
    assert(t[0] == "Unary:"@[0]);
    lemma_not_starts(t, "PushFloat:"@, 0);
    assert(t[0] == "Unary:"@[0]);
    lemma_not_starts(t, "PushBool:"@, 0);
    assert(t[0] == "Unary:"@[0]);
    lemma_not_starts(t, "PushString:"@, 0);
    assert(t[0] == "Unary:"@[0]);
    lemma_not_starts(t, "LoadVariable:"@, 0);
    assert(t[0] == "Unary:"@[0]);
    lemma_not_starts(t, "StoreVariable:"@, 0);
    assert(t[0] == "Unary:"@[0]);
    lemma_not_starts(t, "MakeArray:"@, 0);
    assert(t[0] == "Unary:"@[0]);
    lemma_not_starts(t, "Binary:"@, 0);
}

/// The checks before that of `Call:` fail on a text that starts with it.
pub proof fn lemma_dispatch_call(payload: Seq<char>)
    ensures
        (("Call:"@ + payload) != "Print"@),
        (("Call:"@ + payload) != "Return"@),
        (("Call:"@ + payload) != "Index"@),
        (("Call:"@ + payload) != "StoreIndex"@),
        (("Call:"@ + payload) != "Break"@),
        (("Call:"@ + payload) != "Continue"@),
        !starts_with("Call:"@ + payload, "PushInt:"@),
        !starts_with("Call:"@ + payload, "PushFloat:"@),
        !starts_with("Call:"@ + payload, "PushBool:"@),
        !starts_with("Call:"@ + payload, "PushString:"@),
        !starts_with("Call:"@ + payload, "LoadVariable:"@),
        !starts_with("Call:"@ + payload, "StoreVariable:"@),
        !starts_with("Call:"@ + payload, "MakeArray:"@),
        !starts_with("Call:"@ + payload, "Binary:"@),
        !starts_with("Call:"@ + payload, "Unary:"@),
        starts_with("Call:"@ + payload, "Call:"@),
        after("Call:"@ + payload, "Call:"@) == payload,
{
    reveal_strlit("Call:");
    reveal_strlit("Print");
    reveal_strlit("Return");
    reveal_strlit("Index");
    reveal_strlit("StoreIndex");
    reveal_strlit("Break");
    reveal_strlit("Continue");
    reveal_strlit("PushInt:");
    reveal_strlit("PushFloat:");
    reveal_strlit("PushBool:");
    reveal_strlit("PushString:");
    reveal_strlit("LoadVariable:");
    reveal_strlit("StoreVariable:");
    reveal_strlit("MakeArray:");
    reveal_strlit("Binary:");
    reveal_strlit("Unary:");
    let t = "Call:"@ + payload;
    lemma_starts("Call:"@, payload);
    assert(t[0] == "Call:"@[0]);
    lemma_not_starts(t, "Print"@, 0);
    assert(t[0] == "Call:"@[0]);
    lemma_not_starts(t, "Return"@, 0);
    assert(t[0] == "Call:"@[0]);
    lemma_not_starts(t, "Index"@, 0);
    assert(t[0] == "Call:"@[0]);
    lemma_not_starts(t, "StoreIndex"@, 0);
    assert(t[0] == "Call:"@[0]);
    lemma_not_starts(t, "Break"@, 0);
    assert(t[1] == "Call:"@[1]);
    lemma_not_starts(t, "Continue"@, 1);
    assert(t[0] == "Call:"@[0]);
    lemma_not_starts(t, "PushInt:"@, 0);
    assert(t[0] == "Call:"@[0]);
    lemma_not_starts(t, "PushFloat:"@, 0);
    assert(t[0] == "Call:"@[0]);
    lemma_not_starts(t, "PushBool:"@, 0);
    assert(t[0] == "Call:"@[0]);
    lemma_not_starts(t, "PushString:"@, 0);
    assert(t[0] == "Call:"@[0]);
    lemma_not_starts(t, "LoadVariable:"@, 0);
    assert(t[0] == "Call:"@[0]);
    lemma_not_starts(t, "StoreVariable:"@, 0);
    assert(t[0] == "Call:"@[0]);
    lemma_not_starts(t, "MakeArray:"@, 0);
    assert(t[0] == "Call:"@[0]);
    lemma_not_starts(t, "Binary:"@, 0);
    assert(t[0] == "Call:"@[0]);
    lemma_not_starts(t, "Unary:"@, 0);
}

/// The checks before that of `If` fail on a text that starts with it.
pub proof fn lemma_dispatch_if(payload: Seq<char>)
    ensures
        (("If"@ + payload) != "Print"@),
        (("If"@ + payload) != "Return"@),
        (("If"@ + payload) != "Index"@),
        (("If"@ + payload) != "StoreIndex"@),
        (("If"@ + payload) != "Break"@),
        (("If"@ + payload) != "Continue"@),
        !starts_with("If"@ + payload, "PushInt:"@),
        !starts_with("If"@ + payload, "PushFloat:"@),
        !starts_with("If"@ + payload, "PushBool:"@),
        !starts_with("If"@ + payload, "PushString:"@),
        !starts_with("If"@ + payload, "LoadVariable:"@),
        !starts_with("If"@ + payload, "StoreVariable:"@),
        !starts_with("If"@ + payload, "MakeArray:"@),
        !starts_with("If"@ + payload, "Binary:"@),
        !starts_with("If"@ + payload, "Unary:"@),
        !starts_with("If"@ + payload, "Call:"@),
        starts_with("If"@ + payload, "If"@),
        after("If"@ + payload, "If"@) == payload,
{
    reveal_strlit("If");
    reveal_strlit("Print");
    reveal_strlit("Return");
    reveal_strlit("Index");
    reveal_strlit("StoreIndex");
    reveal_strlit("Break");
    reveal_strlit("Continue");
    reveal_strlit("PushInt:");
    reveal_strlit("PushFloat:");
    reveal_strlit("PushBool:");
    reveal_strlit("PushString:");
    reveal_strlit("LoadVariable:");
    reveal_strlit("StoreVariable:");
    reveal_strlit("MakeArray:");
    reveal_strlit("Binary:");
    reveal_strlit("Unary:");
    reveal_strlit("Call:");
    let t = "If"@ + payload;
    lemma_starts("If"@, payload);
    assert(t[0] == "If"@[0]);
    lemma_not_starts(t, "Print"@, 0);
    assert(t[0] == "If"@[0]);
    lemma_not_starts(t, "Return"@, 0);
    assert(t[1] == "If"@[1]);
    lemma_not_starts(t, "Index"@, 1);
    assert(t[0] == "If"@[0]);
    lemma_not_starts(t, "StoreIndex"@, 0);
    assert(t[0] == "If"@[0]);
    lemma_not_starts(t, "Break"@, 0);
    assert(t[0] == "If"@[0]);
    lemma_not_starts(t, "Continue"@, 0);
    assert(t[0] == "If"@[0]);
    lemma_not_starts(t, "PushInt:"@, 0);
    assert(t[0] == "If"@[0]);
    lemma_not_starts(t, "PushFloat:"@, 0);
    assert(t[0] == "If"@[0]);
    lemma_not_starts(t, "PushBool:"@, 0);
    assert(t[0] == "If"@[0]);
    lemma_not_starts(t, "PushString:"@, 0);
    assert(t[0] == "If"@[0]);
    lemma_not_starts(t, "LoadVariable:"@, 0);
    assert(t[0] == "If"@[0]);
    lemma_not_starts(t, "StoreVariable:"@, 0);
    assert(t[0] == "If"@[0]);
    lemma_not_starts(t, "MakeArray:"@, 0);
    assert(t[0] == "If"@[0]);
    lemma_not_starts(t, "Binary:"@, 0);
    assert(t[0] == "If"@[0]);
    lemma_not_starts(t, "Unary:"@, 0);
    assert(t[0] == "If"@[0]);
    lemma_not_starts(t, "Call:"@, 0);
}

/// The checks before that of `While` fail on a text that starts with it.
pub proof fn lemma_dispatch_while(payload: Seq<char>)
    ensures
        (("While"@ + payload) != "Print"@),
        (("While"@ + payload) != "Return"@),
        (("While"@ + payload) != "Index"@),
        (("While"@ + payload) != "StoreIndex"@),
        (("While"@ + payload) != "Break"@),
        (("While"@ + payload) != "Continue"@),
        !starts_with("While"@ + payload, "PushInt:"@),
        !starts_with("While"@ + payload, "PushFloat:"@),
        !starts_with("While"@ + payload, "PushBool:"@),
        !starts_with("While"@ + payload, "PushString:"@),
        !starts_with("While"@ + payload, "LoadVariable:"@),
        !starts_with("While"@ + payload, "StoreVariable:"@),
        !starts_with("While"@ + payload, "MakeArray:"@),
        !starts_with("While"@ + payload, "Binary:"@),
        !starts_with("While"@ + payload, "Unary:"@),
        !starts_with("While"@ + payload, "Call:"@),
        !starts_with("While"@ + payload, "If"@),
        starts_with("While"@ + payload, "While"@),
        after("While"@ + payload, "While"@) == payload,
{
    reveal_strlit("While");
    reveal_strlit("Print");
    reveal_strlit("Return");
    reveal_strlit("Index");
    reveal_strlit("StoreIndex");
    reveal_strlit("Break");
    reveal_strlit("Continue");
    reveal_strlit("PushInt:");
    reveal_strlit("PushFloat:");
    reveal_strlit("PushBool:");
    reveal_strlit("PushString:");
    reveal_strlit("LoadVariable:");
    reveal_strlit("StoreVariable:");
    reveal_strlit("MakeArray:");
    reveal_strlit("Binary:");
    reveal_strlit("Unary:");
    reveal_strlit("Call:");
    reveal_strlit("If");
    let t = "While"@ + payload;
    lemma_starts("While"@, payload);
    assert(t[0] == "While"@[0]);
    lemma_not_starts(t, "Print"@, 0);
    assert(t[0] == "While"@[0]);
    lemma_not_starts(t, "Return"@, 0);
    assert(t[0] == "While"@[0]);
    lemma_not_starts(t, "Index"@, 0);
    assert(t[0] == "While"@[0]);
    lemma_not_starts(t, "StoreIndex"@, 0);
    assert(t[0] == "While"@[0]);
    lemma_not_starts(t, "Break"@, 0);
    assert(t[0] == "While"@[0]);
    lemma_not_starts(t, "Continue"@, 0);
    assert(t[0] == "While"@[0]);
    lemma_not_starts(t, "PushInt:"@, 0);
    assert(t[0] == "While"@[0]);
    lemma_not_starts(t, "PushFloat:"@, 0);
    assert(t[0] == "While"@[0]);
    lemma_not_starts(t, "PushBool:"@, 0);
    assert(t[0] == "While"@[0]);
    lemma_not_starts(t, "PushString:"@, 0);
    assert(t[0] == "While"@[0]);
    lemma_not_starts(t, "LoadVariable:"@, 0);
    assert(t[0] == "While"@[0]);
    lemma_not_starts(t, "StoreVariable:"@, 0);
    assert(t[0] == "While"@[0]);
    lemma_not_starts(t, "MakeArray:"@, 0);
    assert(t[0] == "While"@[0]);
    lemma_not_starts(t, "Binary:"@, 0);
    assert(t[0] == "While"@[0]);
    lemma_not_starts(t, "Unary:"@, 0);
    assert(t[0] == "While"@[0]);
    lemma_not_starts(t, "Call:"@, 0);
    assert(t[0] == "While"@[0]);
    lemma_not_starts(t, "If"@, 0);
}

/// The checks before that of `And` fail on a text that starts with it.
pub proof fn lemma_dispatch_and(payload: Seq<char>)
    ensures
        (("And"@ + payload) != "Print"@),
        (("And"@ + payload) != "Return"@),
        (("And"@ + payload) != "Index"@),
        (("And"@ + payload) != "StoreIndex"@),
        (("And"@ + payload) != "Break"@),
        (("And"@ + payload) != "Continue"@),
        !starts_with("And"@ + payload, "PushInt:"@),
        !starts_with("And"@ + payload, "PushFloat:"@),
        !starts_with("And"@ + payload, "PushBool:"@),
        !starts_with("And"@ + payload, "PushString:"@),
        !starts_with("And"@ + payload, "LoadVariable:"@),
        !starts_with("And"@ + payload, "StoreVariable:"@),
        !starts_with("And"@ + payload, "MakeArray:"@),
        !starts_with("And"@ + payload, "Binary:"@),
        !starts_with("And"@ + payload, "Unary:"@),
        !starts_with("And"@ + payload, "Call:"@),
        !starts_with("And"@ + payload, "If"@),
        !starts_with("And"@ + payload, "While"@),
        starts_with("And"@ + payload, "And"@),
        after("And"@ + payload, "And"@) == payload,
{
    reveal_strlit("And");
    reveal_strlit("Print");
    reveal_strlit("Return");
    reveal_strlit("Index");
    reveal_strlit("StoreIndex");
    reveal_strlit("Break");
    reveal_strlit("Continue");
    reveal_strlit("PushInt:");
    reveal_strlit("PushFloat:");
    reveal_strlit("PushBool:");
    reveal_strlit("PushString:");
    reveal_strlit("LoadVariable:");
    reveal_strlit("StoreVariable:");
    reveal_strlit("MakeArray:");
    reveal_strlit("Binary:");
    reveal_strlit("Unary:");
    reveal_strlit("Call:");
    reveal_strlit("If");
    reveal_strlit("While");
    let t = "And"@ + payload;
    lemma_starts("And"@, payload);
    assert(t[0] == "And"@[0]);
    lemma_not_starts(t, "Print"@, 0);
    assert(t[0] == "And"@[0]);
    lemma_not_starts(t, "Return"@, 0);
    assert(t[0] == "And"@[0]);
    lemma_not_starts(t, "Index"@, 0);
    assert(t[0] == "And"@[0]);
    lemma_not_starts(t, "StoreIndex"@, 0);
    assert(t[0] == "And"@[0]);
    lemma_not_starts(t, "Break"@, 0);
    assert(t[0] == "And"@[0]);
    lemma_not_starts(t, "Continue"@, 0);
    assert(t[0] == "And"@[0]);
    lemma_not_starts(t, "PushInt:"@, 0);
    assert(t[0] == "And"@[0]);
    lemma_not_starts(t, "PushFloat:"@, 0);
    assert(t[0] == "And"@[0]);
    lemma_not_starts(t, "PushBool:"@, 0);
    assert(t[0] == "And"@[0]);
    lemma_not_starts(t, "PushString:"@, 0);
    assert(t[0] == "And"@[0]);
    lemma_not_starts(t, "LoadVariable:"@, 0);
    assert(t[0] == "And"@[0]);
    lemma_not_starts(t, "StoreVariable:"@, 0);
    assert(t[0] == "And"@[0]);
    lemma_not_starts(t, "MakeArray:"@, 0);
    assert(t[0] == "And"@[0]);
    lemma_not_starts(t, "Binary:"@, 0);
    assert(t[0] == "And"@[0]);
    lemma_not_starts(t, "Unary:"@, 0);
    assert(t[0] == "And"@[0]);
    lemma_not_starts(t, "Call:"@, 0);
    assert(t[0] == "And"@[0]);
    lemma_not_starts(t, "If"@, 0);
    assert(t[0] == "And"@[0]);
    lemma_not_starts(t, "While"@, 0);
}

/// The checks before that of `Or` fail on a text that starts with it.
pub proof fn lemma_dispatch_or(payload: Seq<char>)
    ensures
        (("Or"@ + payload) != "Print"@),
        (("Or"@ + payload) != "Return"@),
        (("Or"@ + payload) != "Index"@),
        (("Or"@ + payload) != "StoreIndex"@),
        (("Or"@ + payload) != "Break"@),
        (("Or"@ + payload) != "Continue"@),
        !starts_with("Or"@ + payload, "PushInt:"@),
        !starts_with("Or"@ + payload, "PushFloat:"@),
        !starts_with("Or"@ + payload, "PushBool:"@),
        !starts_with("Or"@ + payload, "PushString:"@),
        !starts_with("Or"@ + payload, "LoadVariable:"@),
        !starts_with("Or"@ + payload, "StoreVariable:"@),
        !starts_with("Or"@ + payload, "MakeArray:"@),
        !starts_with("Or"@ + payload, "Binary:"@),
        !starts_with("Or"@ + payload, "Unary:"@),
        !starts_with("Or"@ + payload, "Call:"@),
        !starts_with("Or"@ + payload, "If"@),
        !starts_with("Or"@ + payload, "While"@),
        !starts_with("Or"@ + payload, "And"@),
        starts_with("Or"@ + payload, "Or"@),
        after("Or"@ + payload, "Or"@) == payload,
{
    reveal_strlit("Or");
    reveal_strlit("Print");
    reveal_strlit("Return");
    reveal_strlit("Index");
    reveal_strlit("StoreIndex");
    reveal_strlit("Break");
    reveal_strlit("Continue");
    reveal_strlit("PushInt:");
    reveal_strlit("PushFloat:");
    reveal_strlit("PushBool:");
    reveal_strlit("PushString:");
    reveal_strlit("LoadVariable:");
    reveal_strlit("StoreVariable:");
    reveal_strlit("MakeArray:");
    reveal_strlit("Binary:");
    reveal_strlit("Unary:");
    reveal_strlit("Call:");
    reveal_strlit("If");
    reveal_strlit("While");
    reveal_strlit("And");
    let t = "Or"@ + payload;
    lemma_starts("Or"@, payload);
    assert(t[0] == "Or"@[0]);
    lemma_not_starts(t, "Print"@, 0);
    assert(t[0] == "Or"@[0]);
    lemma_not_starts(t, "Return"@, 0);
    assert(t[0] == "Or"@[0]);
    lemma_not_starts(t, "Index"@, 0);
    assert(t[0] == "Or"@[0]);
    lemma_not_starts(t, "StoreIndex"@, 0);
    assert(t[0] == "Or"@[0]);
    lemma_not_starts(t, "Break"@, 0);
    assert(t[0] == "Or"@[0]);
    lemma_not_starts(t, "Continue"@, 0);
    assert(t[0] == "Or"@[0]);
    lemma_not_starts(t, "PushInt:"@, 0);
    assert(t[0] == "Or"@[0]);
    lemma_not_starts(t, "PushFloat:"@, 0);
    assert(t[0] == "Or"@[0]);
    lemma_not_starts(t, "PushBool:"@, 0);
    assert(t[0] == "Or"@[0]);
    lemma_not_starts(t, "PushString:"@, 0);
    assert(t[0] == "Or"@[0]);
    lemma_not_starts(t, "LoadVariable:"@, 0);
    assert(t[0] == "Or"@[0]);
    lemma_not_starts(t, "StoreVariable:"@, 0);
    assert(t[0] == "Or"@[0]);
    lemma_not_starts(t, "MakeArray:"@, 0);
    assert(t[0] == "Or"@[0]);
    lemma_not_starts(t, "Binary:"@, 0);
    assert(t[0] == "Or"@[0]);
    lemma_not_starts(t, "Unary:"@, 0);
    assert(t[0] == "Or"@[0]);
    lemma_not_starts(t, "Call:"@, 0);
    assert(t[0] == "Or"@[0]);
    lemma_not_starts(t, "If"@, 0);
    assert(t[0] == "Or"@[0]);
    lemma_not_starts(t, "While"@, 0);
    assert(t[0] == "Or"@[0]);
    lemma_not_starts(t, "And"@, 0);
}

/// The checks before that of `For` fail on a text that starts with it.
pub proof fn lemma_dispatch_for(payload: Seq<char>)
    ensures
        (("For"@ + payload) != "Print"@),
        (("For"@ + payload) != "Return"@),
        (("For"@ + payload) != "Index"@),
        (("For"@ + payload) != "StoreIndex"@),
        (("For"@ + payload) != "Break"@),
        (("For"@ + payload) != "Continue"@),
        !starts_with("For"@ + payload, "PushInt:"@),
        !starts_with("For"@ + payload, "PushFloat:"@),
        !starts_with("For"@ + payload, "PushBool:"@),
        !starts_with("For"@ + payload, "PushString:"@),
        !starts_with("For"@ + payload, "LoadVariable:"@),
        !starts_with("For"@ + payload, "StoreVariable:"@),
        !starts_with("For"@ + payload, "MakeArray:"@),
        !starts_with("For"@ + payload, "Binary:"@),
        !starts_with("For"@ + payload, "Unary:"@),
        !starts_with("For"@ + payload, "Call:"@),
        !starts_with("For"@ + payload, "If"@),
        !starts_with("For"@ + payload, "While"@),
        !starts_with("For"@ + payload, "And"@),
        !starts_with("For"@ + payload, "Or"@),
        starts_with("For"@ + payload, "For"@),
        after("For"@ + payload, "For"@) == payload,
{
    reveal_strlit("For");
    reveal_strlit("Print");
    reveal_strlit("Return");
    reveal_strlit("Index");
    reveal_strlit("StoreIndex");
    reveal_strlit("Break");
    reveal_strlit("Continue");
    reveal_strlit("PushInt:");
    reveal_strlit("PushFloat:");
    reveal_strlit("PushBool:");
    reveal_strlit("PushString:");
    reveal_strlit("LoadVariable:");
    reveal_strlit("StoreVariable:");
    reveal_strlit("MakeArray:");
    reveal_strlit("Binary:");
    reveal_strlit("Unary:");
    reveal_strlit("Call:");
    reveal_strlit("If");
    reveal_strlit("While");
    reveal_strlit("And");
    reveal_strlit("Or");
    let t = "For"@ + payload;
    lemma_starts("For"@, payload);
    assert(t[0] == "For"@[0]);
    lemma_not_starts(t, "Print"@, 0);
    assert(t[0] == "For"@[0]);
    lemma_not_starts(t, "Return"@, 0);
    assert(t[0] == "For"@[0]);
    lemma_not_starts(t, "Index"@, 0);
    assert(t[0] == "For"@[0]);
    lemma_not_starts(t, "StoreIndex"@, 0);
    assert(t[0] == "For"@[0]);
    lemma_not_starts(t, "Break"@, 0);
    assert(t[0] == "For"@[0]);
    lemma_not_starts(t, "Continue"@, 0);
    assert(t[0] == "For"@[0]);
    lemma_not_starts(t, "PushInt:"@, 0);
    assert(t[0] == "For"@[0]);
    lemma_not_starts(t, "PushFloat:"@, 0);
    assert(t[0] == "For"@[0]);
    lemma_not_starts(t, "PushBool:"@, 0);
    assert(t[0] == "For"@[0]);
    lemma_not_starts(t, "PushString:"@, 0);
    assert(t[0] == "For"@[0]);
    lemma_not_starts(t, "LoadVariable:"@, 0);
    assert(t[0] == "For"@[0]);
    lemma_not_starts(t, "StoreVariable:"@, 0);
    assert(t[0] == "For"@[0]);
    lemma_not_starts(t, "MakeArray:"@, 0);
    assert(t[0] == "For"@[0]);
    lemma_not_starts(t, "Binary:"@, 0);
    assert(t[0] == "For"@[0]);
    lemma_not_starts(t, "Unary:"@, 0);
    assert(t[0] == "For"@[0]);
    lemma_not_starts(t, "Call:"@, 0);
    assert(t[0] == "For"@[0]);
    lemma_not_starts(t, "If"@, 0);
    assert(t[0] == "For"@[0]);
    lemma_not_starts(t, "While"@, 0);
    assert(t[0] == "For"@[0]);
    lemma_not_starts(t, "And"@, 0);
    assert(t[0] == "For"@[0]);
    lemma_not_starts(t, "Or"@, 0);
}

/// Decoding the text of an instruction gives the instruction back.
pub proof fn lemma_decode_encode(i: InstructionView)
    ensures
        decode_instruction(encode_instruction(i)) == Ok::<InstructionView, Seq<char>>(i),
    decreases i, 0int, 1int,
{
    match i {
        InstructionView::Print { .. } => lemma_decode_print(i),
        InstructionView::Return { .. } => lemma_decode_return(i),
        InstructionView::Index { .. } => lemma_decode_index(i),
        InstructionView::StoreIndex { .. } => lemma_decode_store_index(i),
        InstructionView::Break { .. } => lemma_decode_break(i),
        InstructionView::Continue { .. } => lemma_decode_continue(i),
        InstructionView::PushInt { .. } => lemma_decode_push_int(i),
        InstructionView::PushFloat { .. } => lemma_decode_push_float(i),
        InstructionView::PushBool { .. } => lemma_decode_push_bool(i),
        InstructionView::PushString { .. } => lemma_decode_push_string(i),
        InstructionView::LoadVariable { .. } => lemma_decode_load_variable(i),
        InstructionView::StoreVariable { .. } => lemma_decode_store_variable(i),
        InstructionView::MakeArray { .. } => lemma_decode_make_array(i),
        InstructionView::Binary { .. } => lemma_decode_binary_instruction(i),
        InstructionView::Unary { .. } => lemma_decode_unary_instruction(i),
        InstructionView::Call { .. } => lemma_decode_call(i),
        InstructionView::If { .. } => lemma_decode_if(i),
        InstructionView::While { .. } => lemma_decode_while(i),
        InstructionView::ShortCircuitAnd { .. } => lemma_decode_short_circuit_and(i),
        InstructionView::ShortCircuitOr { .. } => lemma_decode_short_circuit_or(i),
        InstructionView::For { .. } => lemma_decode_for(i),
    }
}

proof fn lemma_decode_print(i: InstructionView)
    requires
        i is Print,
    ensures
        decode_instruction(encode_instruction(i)) == Ok::<InstructionView, Seq<char>>(i),
{
    match i {
        InstructionView::Print => {
            lemma_dispatch_print(Seq::<char>::empty());
            assert("Print"@ + Seq::<char>::empty() =~= "Print"@);
        },
        _ => {},
    }
}

proof fn lemma_decode_return(i: InstructionView)
    requires
        i is Return,
    ensures
        decode_instruction(encode_instruction(i)) == Ok::<InstructionView, Seq<char>>(i),
{
    match i {
        InstructionView::Return => {
            lemma_dispatch_return(Seq::<char>::empty());
            assert("Return"@ + Seq::<char>::empty() =~= "Return"@);
        },
        _ => {},
    }
}

proof fn lemma_decode_index(i: InstructionView)
    requires
        i is Index,
    ensures
        decode_instruction(encode_instruction(i)) == Ok::<InstructionView, Seq<char>>(i),
{
    match i {
        InstructionView::Index => {
            lemma_dispatch_index(Seq::<char>::empty());
            assert("Index"@ + Seq::<char>::empty() =~= "Index"@);
        },
        _ => {},
    }
}

proof fn lemma_decode_store_index(i: InstructionView)
    requires
        i is StoreIndex,
    ensures
        decode_instruction(encode_instruction(i)) == Ok::<InstructionView, Seq<char>>(i),
{
    match i {
        InstructionView::StoreIndex => {
            lemma_dispatch_storeindex(Seq::<char>::empty());
            assert("StoreIndex"@ + Seq::<char>::empty() =~= "StoreIndex"@);
        },
        _ => {},
    }
}

proof fn lemma_decode_break(i: InstructionView)
    requires
        i is Break,
    ensures
        decode_instruction(encode_instruction(i)) == Ok::<InstructionView, Seq<char>>(i),
{
    match i {
        InstructionView::Break => {
            lemma_dispatch_break(Seq::<char>::empty());
            assert("Break"@ + Seq::<char>::empty() =~= "Break"@);
        },
        _ => {},
    }
}

proof fn lemma_decode_continue(i: InstructionView)
    requires
        i is Continue,
    ensures
        decode_instruction(encode_instruction(i)) == Ok::<InstructionView, Seq<char>>(i),
{
    match i {
        InstructionView::Continue => {
            lemma_dispatch_continue(Seq::<char>::empty());
            assert("Continue"@ + Seq::<char>::empty() =~= "Continue"@);
        },
        _ => {},
    }
}

proof fn lemma_decode_push_int(i: InstructionView)
    requires
        i is PushInt,
    ensures
        decode_instruction(encode_instruction(i)) == Ok::<InstructionView, Seq<char>>(i),
{
    match i {
        InstructionView::PushInt(v) => {
            let payload = int_text(v as int);
            lemma_dispatch_pushint(payload);
            assert(encode_instruction(i) == "PushInt:"@ + payload);
            crate::text::lemma_i64_text(v);
        },
        _ => {},
    }
}

proof fn lemma_decode_push_float(i: InstructionView)
    requires
        i is PushFloat,
    ensures
        decode_instruction(encode_instruction(i)) == Ok::<InstructionView, Seq<char>>(i),
{
    match i {
        InstructionView::PushFloat(x) => {
            let payload = escape(x);
            lemma_dispatch_pushfloat(payload);
            assert(encode_instruction(i) == "PushFloat:"@ + payload);
            lemma_unescape_escape(x);
        },
        _ => {},
    }
}

proof fn lemma_decode_push_bool(i: InstructionView)
    requires
        i is PushBool,
    ensures
        decode_instruction(encode_instruction(i)) == Ok::<InstructionView, Seq<char>>(i),
{
    match i {
        InstructionView::PushBool(b) => {
            let payload = (if b {
                "true"@
            } else {
                "false"@
            });
            lemma_dispatch_pushbool(payload);
            assert(encode_instruction(i) == "PushBool:"@ + payload);
            reveal_strlit("true");
            reveal_strlit("false");
        },
        _ => {},
    }
}

proof fn lemma_decode_push_string(i: InstructionView)
    requires
        i is PushString,
    ensures
        decode_instruction(encode_instruction(i)) == Ok::<InstructionView, Seq<char>>(i),
{
    match i {
        InstructionView::PushString(x) => {
            let payload = escape(x);
            lemma_dispatch_pushstring(payload);
            assert(encode_instruction(i) == "PushString:"@ + payload);
            lemma_unescape_escape(x);
        },
        _ => {},
    }
}

proof fn lemma_decode_load_variable(i: InstructionView)
    requires
        i is LoadVariable,
    ensures
        decode_instruction(encode_instruction(i)) == Ok::<InstructionView, Seq<char>>(i),
{
    match i {
        InstructionView::LoadVariable(x) => {
            let payload = escape(x);
            lemma_dispatch_loadvariable(payload);
            assert(encode_instruction(i) == "LoadVariable:"@ + payload);
            lemma_unescape_escape(x);
        },
        _ => {},
    }
}

proof fn lemma_decode_store_variable(i: InstructionView)
    requires
        i is StoreVariable,
    ensures
        decode_instruction(encode_instruction(i)) == Ok::<InstructionView, Seq<char>>(i),
{
    match i {
        InstructionView::StoreVariable(x) => {
            let payload = escape(x);
            lemma_dispatch_storevariable(payload);
            assert(encode_instruction(i) == "StoreVariable:"@ + payload);
            lemma_unescape_escape(x);
        },
        _ => {},
    }
}

proof fn lemma_decode_make_array(i: InstructionView)
    requires
        i is MakeArray,
    ensures
        decode_instruction(encode_instruction(i)) == Ok::<InstructionView, Seq<char>>(i),
{
    match i {
        InstructionView::MakeArray { length } => {
            let payload = decimal(length as nat);
            lemma_dispatch_makearray(payload);
            assert(encode_instruction(i) == "MakeArray:"@ + payload);
            crate::text::lemma_usize_decimal(length);
        },
        _ => {},
    }
}

proof fn lemma_decode_binary_instruction(i: InstructionView)
    requires
        i is Binary,
    ensures
        decode_instruction(encode_instruction(i)) == Ok::<InstructionView, Seq<char>>(i),
{
    match i {
        InstructionView::Binary { op } => {
            let payload = binary_name(op);
            lemma_dispatch_binary(payload);
            assert(encode_instruction(i) == "Binary:"@ + payload);
            lemma_decode_binary_name(op);
        },
        _ => {},
    }
}

proof fn lemma_decode_unary_instruction(i: InstructionView)
    requires
        i is Unary,
    ensures
        decode_instruction(encode_instruction(i)) == Ok::<InstructionView, Seq<char>>(i),
{
    match i {
        InstructionView::Unary { op } => {
            let payload = unary_name(op);
            lemma_dispatch_unary(payload);
            assert(encode_instruction(i) == "Unary:"@ + payload);
            lemma_decode_unary_name(op);
        },
        _ => {},
    }
}

proof fn lemma_decode_call(i: InstructionView)
    requires
        i is Call,
    ensures
        decode_instruction(encode_instruction(i)) == Ok::<InstructionView, Seq<char>>(i),
{
    match i {
        InstructionView::Call { name, argument_count } => {
            let payload = escape(name) + "|"@ + decimal(argument_count as nat);
            lemma_dispatch_call(payload);
            assert(encode_instruction(i) == "Call:"@ + payload);
            lemma_split_call(name, argument_count);
            lemma_unescape_escape(name);
            crate::text::lemma_usize_decimal(argument_count);
        },
        _ => {},
    }
}

proof fn lemma_decode_if(i: InstructionView)
    requires
        i is If,
    ensures
        decode_instruction(encode_instruction(i)) == Ok::<InstructionView, Seq<char>>(i),
    decreases i, 0int, 0int,
{
    match i {
        InstructionView::If { then_body, else_body } => {
            let payload = block(encode_sequence(then_body)) + block(encode_sequence(else_body));
            lemma_dispatch_if(payload);
            assert(encode_instruction(i) == "If"@ + payload);
            lemma_decode_encode_sequence(then_body);
            lemma_decode_encode_sequence(else_body);
            lemma_read_two(then_body, else_body);
            lemma_assemble_names();
        },
        _ => {},
    }
}

proof fn lemma_decode_while(i: InstructionView)
    requires
        i is While,
    ensures
        decode_instruction(encode_instruction(i)) == Ok::<InstructionView, Seq<char>>(i),
    decreases i, 0int, 0int,
{
    match i {
        InstructionView::While { condition, body } => {
            let payload = block(encode_sequence(condition)) + block(encode_sequence(body));
            lemma_dispatch_while(payload);
            assert(encode_instruction(i) == "While"@ + payload);
            lemma_decode_encode_sequence(condition);
            lemma_decode_encode_sequence(body);
            lemma_read_two(condition, body);
            lemma_assemble_names();
        },
        _ => {},
    }
}

proof fn lemma_decode_short_circuit_and(i: InstructionView)
    requires
        i is ShortCircuitAnd,
    ensures
        decode_instruction(encode_instruction(i)) == Ok::<InstructionView, Seq<char>>(i),
    decreases i, 0int, 0int,
{
    match i {
        InstructionView::ShortCircuitAnd { right } => {
            let payload = block(encode_sequence(right));
            lemma_dispatch_and(payload);
            assert(encode_instruction(i) == "And"@ + payload);
            lemma_decode_encode_sequence(right);
            lemma_read_one(right);
            lemma_assemble_names();
        },
        _ => {},
    }
}

proof fn lemma_decode_short_circuit_or(i: InstructionView)
    requires
        i is ShortCircuitOr,
    ensures
        decode_instruction(encode_instruction(i)) == Ok::<InstructionView, Seq<char>>(i),
    decreases i, 0int, 0int,
{
    match i {
        InstructionView::ShortCircuitOr { right } => {
            let payload = block(encode_sequence(right));
            lemma_dispatch_or(payload);
            assert(encode_instruction(i) == "Or"@ + payload);
            lemma_decode_encode_sequence(right);
            lemma_read_one(right);
            lemma_assemble_names();
        },
        _ => {},
    }
}

proof fn lemma_decode_for(i: InstructionView)
    requires
        i is For,
    ensures
        decode_instruction(encode_instruction(i)) == Ok::<InstructionView, Seq<char>>(i),
    decreases i, 0int, 0int,
{
    match i {
        InstructionView::For { initializer, condition, update, body } => {
            let payload = block(encode_sequence(initializer)) + block(encode_sequence(condition)) + block(
                encode_sequence(update),
            ) + block(encode_sequence(body));
            lemma_dispatch_for(payload);
            assert(encode_instruction(i) == "For"@ + payload);
            lemma_decode_encode_sequence(initializer);
            lemma_decode_encode_sequence(condition);
            lemma_decode_encode_sequence(update);
            lemma_decode_encode_sequence(body);
            lemma_read_four(initializer, condition, update, body);
            lemma_assemble_names();
        },
        _ => {},
    }
}

/// The texts of the instructions, one each.
pub open spec fn encode_all(is: Seq<InstructionView>) -> Seq<Seq<char>> {
    is.map_values(|x: InstructionView| encode_instruction(x))
}

pub proof fn lemma_encode_nonempty(i: InstructionView)
    ensures
        encode_instruction(i).len() > 0,
{
    reveal_strlit("Print");
    reveal_strlit("Return");
    reveal_strlit("Index");
    reveal_strlit("StoreIndex");
    reveal_strlit("Break");
    reveal_strlit("Continue");
    reveal_strlit("PushInt:");
    reveal_strlit("PushFloat:");
    reveal_strlit("PushBool:");
    reveal_strlit("PushString:");
    reveal_strlit("LoadVariable:");
    reveal_strlit("StoreVariable:");
    reveal_strlit("MakeArray:");
    reveal_strlit("Binary:");
    reveal_strlit("Unary:");
    reveal_strlit("Call:");
    reveal_strlit("If");
    reveal_strlit("While");
    reveal_strlit("And");
    reveal_strlit("Or");
    reveal_strlit("For");
}

pub proof fn lemma_encode_sequence_front(is: Seq<InstructionView>)
    requires
        is.len() >= 2,
    ensures
        encode_sequence(is) == encode_instruction(is[0]) + ";"@ + encode_sequence(is.drop_first()),
    decreases is.len(),
{
    let init = is.drop_last();
    let tail = is.drop_first();
    if is.len() == 2 {
        assert(init.len() == 1 && init[0] == is[0]);
        assert(tail.len() == 1 && tail[0] == is[1]);
        assert(encode_sequence(init) == encode_instruction(is[0]));
        assert(encode_sequence(tail) == encode_instruction(is[1]));
    } else {
        lemma_encode_sequence_front(init);
        assert(init[0] == is[0]);
        assert(init.drop_first() =~= tail.drop_last());
        assert(tail.last() == is.last());
        assert(encode_sequence(tail) == encode_sequence(tail.drop_last()) + ";"@ + encode_instruction(
            tail.last(),
        ));
        assert(encode_sequence(is) =~= encode_instruction(is[0]) + ";"@ + encode_sequence(tail));
    }
}

/// Splitting the text of a sequence at `;` gives the texts of its
/// instructions.
pub proof fn lemma_split_sequence(s: Seq<char>, i: int, is: Seq<InstructionView>, parts: Seq<Seq<char>>)
    requires
        is.len() >= 1,
        0 <= i <= s.len(),
        s.subrange(i, s.len() as int) == encode_sequence(is),
    ensures
        split_scan(s, ';', i, false, 0, seq![], parts) == parts + encode_all(is),
    decreases is.len(),
{
    let e0 = encode_instruction(is[0]);
    lemma_encode_balanced(is[0]);
    let el: int = e0.len() as int;
    if is.len() == 1 {
        assert(encode_sequence(is) == e0);
        assert(s.subrange(i, i + el) =~= e0);
        lemma_split_segment(s, i, e0, false, 0, seq![], parts);
        assert(Seq::<char>::empty() + e0 =~= e0);
        assert(i + el == s.len());
        assert(parts.push(e0) =~= parts + encode_all(is));
    } else {
        lemma_encode_sequence_front(is);
        reveal_strlit(";");
        let rest = is.drop_first();
        let er = encode_sequence(rest);
        let whole = e0 + ";"@ + er;
        assert(s.subrange(i, s.len() as int) == whole);
        assert(whole.len() == el + 1 + er.len());
        assert(s.len() - i == whole.len());
        assert(s.subrange(i, i + el) =~= e0) by {
            assert forall|k: int| 0 <= k < el implies s.subrange(i, i + el)[k] == e0[k] by {
                assert(s[i + k] == s.subrange(i, s.len() as int)[k]);
            }
        }
        lemma_split_segment(s, i, e0, false, 0, seq![], parts);
        assert(Seq::<char>::empty() + e0 =~= e0);
        assert(s[i + el] == s.subrange(i, s.len() as int)[el]);
        assert(s[i + el] == ';');
        assert(split_depth(';', ';', 0) == 0);
        assert(split_scan(s, ';', i + el, false, 0, e0, parts) == split_scan(
            s,
            ';',
            i + el + 1,
            false,
            0,
            seq![],
            parts.push(e0),
        ));
        assert(s.subrange(i + el + 1, s.len() as int) =~= er) by {
            assert forall|k: int| 0 <= k < er.len() implies s.subrange(i + el + 1, s.len() as int)[k]
                == er[k] by {
                assert(s[i + el + 1 + k] == s.subrange(i, s.len() as int)[el + 1 + k]);
            }
        }
        lemma_split_sequence(s, i + el + 1, rest, parts.push(e0));
        assert(parts.push(e0) + encode_all(rest) =~= parts + encode_all(is));
    }
}

/// Decoding the text of a sequence gives the sequence back.
pub proof fn lemma_decode_encode_sequence(is: Seq<InstructionView>)
    ensures
        decode_sequence(encode_sequence(is)) == Ok::<Seq<InstructionView>, Seq<char>>(is),
    decreases is, 2int, 0int,
{
    let raw = encode_sequence(is);
    if is.len() == 0 {
        assert(raw.len() == 0);
        assert(is =~= Seq::<InstructionView>::empty());
    } else {
        lemma_encode_nonempty(is[0]);
        if is.len() == 1 {
            assert(raw.len() > 0);
        } else {
            lemma_encode_sequence_front(is);
            assert(raw.len() > 0);
        }
        assert(raw.subrange(0, raw.len() as int) =~= raw);
        lemma_split_sequence(raw, 0, is, seq![]);
        assert(Seq::<Seq<char>>::empty() + encode_all(is) =~= encode_all(is));
        lemma_decode_parts_encoded(raw, is, 0);
        assert(is.subrange(0, is.len() as int) =~= is);
    }
}

pub proof fn lemma_decode_parts_encoded(raw: Seq<char>, is: Seq<InstructionView>, k: int)
    requires
        split_escaped(raw, ';') == encode_all(is),
        0 <= k <= is.len(),
    ensures
        decode_parts(raw, k) == Ok::<Seq<InstructionView>, Seq<char>>(is.subrange(k, is.len() as int)),
    decreases is, 1int, is.len() - k,
{
    if k == is.len() {
        assert(is.subrange(k, is.len() as int) =~= Seq::<InstructionView>::empty());
    } else {
        lemma_encode_nonempty(is[k]);
        lemma_decode_encode(is[k]);
        assert(split_escaped(raw, ';')[k] == encode_instruction(is[k]));
        lemma_decode_parts_encoded(raw, is, k + 1);
        assert(seq![is[k]] + is.subrange(k + 1, is.len() as int) =~= is.subrange(k, is.len() as int));
    }
}

/// No line feed in the line.
pub open spec fn no_newline(l: Seq<char>) -> bool {
    forall|k: int| 0 <= k < l.len() ==> #[trigger] l[k] != '\n'
}

/// Lines that `str::lines` gives back as they are once joined: none holds a
/// line feed, and none but the last ends with a carriage return.
pub open spec fn lines_fit(lines: Seq<Seq<char>>) -> bool {
    &&& forall|k: int| 0 <= k < lines.len() ==> #[trigger] no_newline(lines[k])
    &&& forall|k: int|
        0 <= k < lines.len() - 1 ==> !(#[trigger] lines[k].len() > 0 && lines[k].last() == '\r')
}

pub proof fn lemma_lines_segment(
    s: Seq<char>,
    i: int,
    t: Seq<char>,
    cur: Seq<char>,
    acc: Seq<Seq<char>>,
)
    requires
        0 <= i,
        i + t.len() <= s.len(),
        s.subrange(i, i + t.len()) == t,
        no_newline(t),
    ensures
        lines_scan(s, i, cur, acc) == lines_scan(s, i + t.len(), cur + t, acc),
    decreases t.len(),
{
    if t.len() == 0 {
        assert(cur + t =~= cur);
    } else {
        assert(s[i] == s.subrange(i, i + t.len())[0]);
        assert(t[0] != '\n');
        let rest = t.drop_first();
        assert(s.subrange(i + 1, i + 1 + rest.len()) =~= rest) by {
            assert forall|k: int| 0 <= k < rest.len() implies s.subrange(i + 1, i + 1 + rest.len())[k]
                == rest[k] by {
                assert(s[i + 1 + k] == s.subrange(i, i + t.len())[k + 1]);
            }
        }
        assert(no_newline(rest)) by {
            assert forall|k: int| 0 <= k < rest.len() implies #[trigger] rest[k] != '\n' by {
                assert(rest[k] == t[k + 1]);
            }
        }
        lemma_lines_segment(s, i + 1, rest, cur.push(t[0]), acc);
        assert(cur.push(t[0]) + rest =~= cur + t);
    }
}

pub proof fn lemma_lines_join(s: Seq<char>, lines: Seq<Seq<char>>)
    requires
        lines.len() >= 1,
        lines_fit(lines),
        join_lines(lines).len() <= s.len(),
        s.subrange(0, join_lines(lines).len() as int) == join_lines(lines),
    ensures
        lines_scan(s, 0, seq![], seq![]) == lines_scan(
            s,
            join_lines(lines).len() as int,
            lines.last(),
            lines.drop_last(),
        ),
    decreases lines.len(),
{
    reveal_strlit("\n");
    if lines.len() == 1 {
        let t = lines[0];
        assert(join_lines(lines) == t);
        assert(no_newline(lines[0]));
        lemma_lines_segment(s, 0, t, seq![], seq![]);
        assert(Seq::<char>::empty() + t =~= t);
        assert(lines.drop_last() =~= Seq::<Seq<char>>::empty());
    } else {
        let init = lines.drop_last();
        let last = lines.last();
        let ji = join_lines(init);
        let n: int = ji.len() as int;
        assert(join_lines(lines) == ji + "\n"@ + last);
        assert(lines_fit(init)) by {
            assert forall|k: int| 0 <= k < init.len() implies #[trigger] no_newline(init[k]) by {
                assert(init[k] == lines[k]);
                assert(no_newline(lines[k]));
            }
            assert forall|k: int| 0 <= k < init.len() - 1 implies !(#[trigger] init[k].len() > 0
                && init[k].last() == '\r') by {
                assert(init[k] == lines[k]);
                assert(!(lines[k].len() > 0 && lines[k].last() == '\r'));
            }
        }
        assert(s.subrange(0, n) =~= ji) by {
            assert forall|k: int| 0 <= k < n implies s.subrange(0, n)[k] == ji[k] by {
                assert(s[k] == s.subrange(0, join_lines(lines).len() as int)[k]);
            }
        }
        lemma_lines_join(s, init);
        assert(s[n] == s.subrange(0, join_lines(lines).len() as int)[n]);
        assert(s[n] == '\n');
        let before = init.last();
        assert(before == lines[lines.len() - 2]);
        assert(!(lines[lines.len() - 2].len() > 0 && lines[lines.len() - 2].last() == '\r'));
        assert(strip_cr(before) == before);
        assert(init.drop_last().push(before) =~= init);
        assert(no_newline(lines[lines.len() - 1]));
        assert(s.subrange(n + 1, n + 1 + last.len()) =~= last) by {
            assert forall|k: int| 0 <= k < last.len() implies s.subrange(n + 1, n + 1 + last.len())[k]
                == last[k] by {
                assert(s[n + 1 + k] == s.subrange(0, join_lines(lines).len() as int)[n + 1 + k]);
            }
        }
        lemma_lines_segment(s, n + 1, last, seq![], init);
        assert(Seq::<char>::empty() + last =~= last);
    }
}

/// Joined lines are read back as they were.
pub proof fn lemma_text_lines_join(lines: Seq<Seq<char>>)
    requires
        lines.len() >= 1,
        lines_fit(lines),
        lines.last().len() > 0,
    ensures
        text_lines(join_lines(lines)) == lines,
{
    let s = join_lines(lines);
    assert(s.subrange(0, s.len() as int) =~= s);
    lemma_lines_join(s, lines);
    assert(lines.drop_last().push(lines.last()) =~= lines);
}

pub proof fn lemma_read_params(lines: Seq<Seq<char>>, at: int, ps: Seq<Seq<char>>, name: Seq<char>)
    requires
        0 <= at,
        at + ps.len() <= lines.len(),
        forall|k: int| 0 <= k < ps.len() ==> #[trigger] lines[at + k] == "PARAM:"@ + escape(ps[k]),
    ensures
        read_params(lines, at, ps.len(), name) == Ok::<Seq<Seq<char>>, Seq<char>>(ps),
    decreases ps.len(),
{
    if ps.len() > 0 {
        assert(lines[at + 0] == "PARAM:"@ + escape(ps[0]));
        lemma_starts("PARAM:"@, escape(ps[0]));
        lemma_unescape_escape(ps[0]);
        let rest = ps.drop_first();
        assert forall|k: int| 0 <= k < rest.len() implies #[trigger] lines[at + 1 + k] == "PARAM:"@
            + escape(rest[k]) by {
            assert(lines[at + (k + 1)] == "PARAM:"@ + escape(ps[k + 1]));
            assert(at + (k + 1) == at + 1 + k);
        }
        lemma_read_params(lines, at + 1, rest, name);
        assert(seq![ps[0]] + rest =~= ps);
    } else {
        assert(ps =~= Seq::<Seq<char>>::empty());
    }
}

/// The lines of one function are read back as that function.
pub proof fn lemma_read_function(lines: Seq<Seq<char>>, i: int, f: CompiledFunctionView)
    requires
        0 <= i,
        i + function_lines(f).len() <= lines.len(),
        lines.subrange(i, i + function_lines(f).len()) == function_lines(f),
        f.parameters.len() <= usize::MAX,
    ensures
        read_functions(lines, i) == match read_functions(lines, i + function_lines(f).len()) {
            Ok(fs) => Ok(seq![f] + fs),
            Err(e) => Err(e),
        },
{
    let fl = function_lines(f);
    let n: int = f.parameters.len() as int;
    let count: usize = f.parameters.len() as usize;
    let pl = parameter_lines(f.parameters);
    assert(fl.len() == n + 3);
    assert(lines[i] == fl[0]);
    assert(lines[i + 1] == fl[1]);
    assert(fl[0] == "FUNCTION:"@ + escape(f.name));
    assert(fl[1] == "PARAMS:"@ + decimal(count as nat));
    lemma_starts("FUNCTION:"@, escape(f.name));
    lemma_unescape_escape(f.name);
    lemma_starts("PARAMS:"@, decimal(count as nat));
    crate::text::lemma_usize_decimal(count);
    assert forall|k: int| 0 <= k < n implies #[trigger] lines[i + 2 + k] == "PARAM:"@ + escape(
        f.parameters[k],
    ) by {
        assert(lines[i + 2 + k] == fl[2 + k]);
        assert(fl[2 + k] == pl[k]);
    }
    lemma_read_params(lines, i + 2, f.parameters, f.name);
    assert(lines[i + 2 + n] == fl[2 + n]);
    assert(fl[2 + n] == "INSTR:"@ + encode_sequence(f.instructions));
    lemma_starts("INSTR:"@, encode_sequence(f.instructions));
    lemma_decode_encode_sequence(f.instructions);
    assert(CompiledFunctionView {
        name: f.name,
        parameters: f.parameters,
        instructions: f.instructions,
    } == f);
}

pub proof fn lemma_artifact_lines_prefix(fs: Seq<CompiledFunctionView>, k: int)
    requires
        0 <= k <= fs.len(),
    ensures
        artifact_lines(fs.subrange(0, k)).len() <= artifact_lines(fs).len(),
        artifact_lines(fs).subrange(0, artifact_lines(fs.subrange(0, k)).len() as int)
            == artifact_lines(fs.subrange(0, k)),
    decreases fs.len() - k,
{
    if k == fs.len() {
        assert(fs.subrange(0, k) =~= fs);
        assert(artifact_lines(fs).subrange(0, artifact_lines(fs).len() as int) =~= artifact_lines(fs));
    } else {
        lemma_artifact_lines_prefix(fs, k + 1);
        let a = fs.subrange(0, k);
        let b = fs.subrange(0, k + 1);
        assert(b.drop_last() =~= a);
        assert(artifact_lines(b) == artifact_lines(a) + function_lines(fs[k]));
        let la = artifact_lines(a);
        let lb = artifact_lines(b);
        let all = artifact_lines(fs);
        assert(all.subrange(0, la.len() as int) =~= la) by {
            assert forall|j: int| 0 <= j < la.len() implies all.subrange(0, la.len() as int)[j]
                == la[j] by {
                assert(all[j] == all.subrange(0, lb.len() as int)[j]);
                assert(lb[j] == la[j]);
            }
        }
    }
}

pub proof fn lemma_read_all(fs: Seq<CompiledFunctionView>, k: int)
    requires
        0 <= k <= fs.len(),
        forall|j: int| 0 <= j < fs.len() ==> #[trigger] fs[j].parameters.len() <= usize::MAX,
    ensures
        read_functions(artifact_lines(fs), artifact_lines(fs.subrange(0, k)).len() as int) == Ok::<
            Seq<CompiledFunctionView>,
            Seq<char>,
        >(fs.subrange(k, fs.len() as int)),
    decreases fs.len() - k,
{
    let all = artifact_lines(fs);
    if k == fs.len() {
        assert(fs.subrange(0, k) =~= fs);
        assert(fs.subrange(k, fs.len() as int) =~= Seq::<CompiledFunctionView>::empty());
    } else {
        lemma_read_all(fs, k + 1);
        lemma_artifact_lines_prefix(fs, k + 1);
        let a = fs.subrange(0, k);
        let b = fs.subrange(0, k + 1);
        assert(b.drop_last() =~= a);
        let la = artifact_lines(a);
        let lb = artifact_lines(b);
        let fl = function_lines(fs[k]);
        assert(lb == la + fl);
        let start: int = la.len() as int;
        assert(all.subrange(start, start + fl.len()) =~= fl) by {
            assert forall|j: int| 0 <= j < fl.len() implies all.subrange(start, start + fl.len())[j]
                == fl[j] by {
                assert(all[start + j] == all.subrange(0, lb.len() as int)[start + j]);
                assert(lb[start + j] == fl[j]);
            }
        }
        lemma_read_function(all, start, fs[k]);
        assert(seq![fs[k]] + fs.subrange(k + 1, fs.len() as int) =~= fs.subrange(k, fs.len() as int));
    }
}

proof fn lemma_artifact_lines_shape(fs: Seq<CompiledFunctionView>)
    ensures
        artifact_lines(fs).len() >= 1,
        artifact_lines(fs)[0] == header(),
        artifact_lines(fs).last().len() > 0,
    decreases fs.len(),
{
    reveal_strlit("AXIOM_ARTIFACT_V1");
    reveal_strlit("INSTR:");
    if fs.len() > 0 {
        lemma_artifact_lines_shape(fs.drop_last());
        let fl = function_lines(fs.last());
        assert(fl.last() == "INSTR:"@ + encode_sequence(fs.last().instructions));
    }
}

/// Reading back the text of an artifact gives the artifact, wherever that
/// text can be cut into its lines again: no name, parameter or string holds
/// a line feed, and no line but the last ends with a carriage return.
pub proof fn law_artifact_round_trip(fs: Seq<CompiledFunctionView>)
    requires
        forall|j: int| 0 <= j < fs.len() ==> #[trigger] fs[j].parameters.len() <= usize::MAX,
        lines_fit(artifact_lines(fs)),
    ensures
        deserialize_text(serialize_text(fs)) == Ok::<Seq<CompiledFunctionView>, Seq<char>>(fs),
{
    lemma_artifact_lines_shape(fs);
    lemma_text_lines_join(artifact_lines(fs));
    lemma_read_all(fs, 0);
    assert(fs.subrange(0, 0) =~= Seq::<CompiledFunctionView>::empty());
    assert(artifact_lines(fs.subrange(0, 0)).len() == 1);
    assert(fs.subrange(0, fs.len() as int) =~= fs);
}

/// Building the artifact of a program, reading it back and running it gives
/// what running the program on the virtual machine gives.
pub proof fn law_build_read_run(p: crate::ast::ProgramView)
    requires
        ({
            let fs = crate::vm::compile_functions(crate::ir::lower_functions(p.functions));
            &&& forall|j: int| 0 <= j < fs.len() ==> #[trigger] fs[j].parameters.len() <= usize::MAX
            &&& lines_fit(artifact_lines(fs))
        }),
    ensures
        ({
            let fs = crate::vm::compile_functions(crate::ir::lower_functions(p.functions));
            deserialize_text(serialize_text(fs)) matches Ok(back) && crate::vm::program_output(
                back,
                crate::vm::EXECUTION_FUEL as nat,
            ) == crate::vm::program_output(fs, crate::vm::EXECUTION_FUEL as nat)
        }),
{
    let fs = crate::vm::compile_functions(crate::ir::lower_functions(p.functions));
    law_artifact_round_trip(fs);
}

// ----- texts without line breaks -----
/// A text with no line feed and no carriage return.
pub open spec fn clean(s: Seq<char>) -> bool {
    forall|k: int| 0 <= k < s.len() ==> #[trigger] s[k] != '\n' && s[k] != '\r'
}

/// Every text that an instruction carries, at any depth, is clean.
pub open spec fn clean_instruction(i: InstructionView) -> bool
    decreases i,
{
    match i {
        InstructionView::PushFloat(t) => clean(t),
        InstructionView::PushString(t) => clean(t),
        InstructionView::LoadVariable(t) => clean(t),
        InstructionView::StoreVariable(t) => clean(t),
        InstructionView::Call { name, .. } => clean(name),
        InstructionView::ShortCircuitAnd { right } => clean_code(right),
        InstructionView::ShortCircuitOr { right } => clean_code(right),
        InstructionView::If { then_body, else_body } => clean_code(then_body) && clean_code(
            else_body,
        ),
        InstructionView::While { condition, body } => clean_code(condition) && clean_code(body),
        InstructionView::For { initializer, condition, update, body } => clean_code(initializer)
            && clean_code(condition) && clean_code(update) && clean_code(body),
        _ => true,
    }
}

pub open spec fn clean_code(is: Seq<InstructionView>) -> bool
    decreases is,
{
    is.len() == 0 || (clean_code(is.drop_last()) && clean_instruction(is.last()))
}

/// Every name, parameter and text of the functions is clean.
pub open spec fn clean_functions(fs: Seq<CompiledFunctionView>) -> bool {
    forall|j: int|
        0 <= j < fs.len() ==> {
            &&& clean(#[trigger] fs[j].name)
            &&& forall|p: int| 0 <= p < fs[j].parameters.len() ==> clean(fs[j].parameters[p])
            &&& clean_code(fs[j].instructions)
        }
}

pub proof fn lemma_clean_concat(a: Seq<char>, b: Seq<char>)
    requires
        clean(a),
        clean(b),
    ensures
        clean(a + b),
{
    assert forall|k: int| 0 <= k < (a + b).len() implies #[trigger] (a + b)[k] != '\n' && (a
        + b)[k] != '\r' by {
        if k < a.len() {
            assert((a + b)[k] == a[k]);
        } else {
            assert((a + b)[k] == b[k - a.len()]);
        }
    }
}

pub proof fn lemma_clean_escape(s: Seq<char>)
    requires
        clean(s),
    ensures
        clean(escape(s)),
    decreases s.len(),
{
    if s.len() > 0 {
        assert(clean(s.drop_last())) by {
            assert forall|k: int| 0 <= k < s.drop_last().len() implies #[trigger] s.drop_last()[k]
                != '\n' && s.drop_last()[k] != '\r' by {
                assert(s.drop_last()[k] == s[k]);
            }
        }
        lemma_clean_escape(s.drop_last());
        assert(s.last() == s[s.len() - 1]);
        assert(clean(escape_char(s.last())));
        lemma_clean_concat(escape(s.drop_last()), escape_char(s.last()));
    }
}

pub proof fn lemma_clean_decimal(n: nat)
    ensures
        clean(decimal(n)),
{
    lemma_decimal(n);
    assert forall|k: int| 0 <= k < decimal(n).len() implies #[trigger] decimal(n)[k] != '\n'
        && decimal(n)[k] != '\r' by {
        assert(is_digit(decimal(n)[k]));
    }
}

pub proof fn lemma_clean_int_text(v: int)
    ensures
        clean(int_text(v)),
{
    if v < 0 {
        lemma_clean_decimal((-v) as nat);
        lemma_clean_concat(seq!['-'], decimal((-v) as nat));
    } else {
        lemma_clean_decimal(v as nat);
    }
}

pub proof fn lemma_clean_block(code: Seq<char>)
    requires
        clean(code),
    ensures
        clean(block(code)),
{
    reveal_strlit("[");
    reveal_strlit("]");
    lemma_clean_concat("["@, code);
    lemma_clean_concat("["@ + code, "]"@);
}

pub proof fn lemma_clean_names(op: BinaryOperator, u: UnaryOperator)
    ensures
        clean(binary_name(op)),
        clean(unary_name(u)),
{
    reveal_strlit("Add");
    reveal_strlit("Subtract");
    reveal_strlit("Multiply");
    reveal_strlit("Divide");
    reveal_strlit("Modulo");
    reveal_strlit("Greater");
    reveal_strlit("GreaterEqual");
    reveal_strlit("Less");
    reveal_strlit("LessEqual");
    reveal_strlit("Equal");
    reveal_strlit("NotEqual");
    reveal_strlit("And");
    reveal_strlit("Or");
    reveal_strlit("Not");
    reveal_strlit("Negate");
}

pub proof fn lemma_clean_instruction(i: InstructionView)
    requires
        clean_instruction(i),
    ensures
        clean(encode_instruction(i)),
    decreases i,
{
    reveal_strlit("PushInt:");
    reveal_strlit("PushFloat:");
    reveal_strlit("PushBool:");
    reveal_strlit("true");
    reveal_strlit("false");
    reveal_strlit("PushString:");
    reveal_strlit("LoadVariable:");
    reveal_strlit("StoreVariable:");
    reveal_strlit("MakeArray:");
    reveal_strlit("Binary:");
    reveal_strlit("And");
    reveal_strlit("Or");
    reveal_strlit("Unary:");
    reveal_strlit("Call:");
    reveal_strlit("|");
    reveal_strlit("Index");
    reveal_strlit("StoreIndex");
    reveal_strlit("Print");
    reveal_strlit("Return");
    reveal_strlit("If");
    reveal_strlit("While");
    reveal_strlit("For");
    reveal_strlit("Break");
    reveal_strlit("Continue");
    match i {
        InstructionView::PushInt(v) => {
            lemma_clean_int_text(v as int);
            lemma_clean_concat("PushInt:"@, int_text(v as int));
        },
        InstructionView::PushFloat(t) => {
            lemma_clean_escape(t);
            lemma_clean_concat("PushFloat:"@, escape(t));
        },
        InstructionView::PushBool(b) => {
            lemma_clean_concat("PushBool:"@, "true"@);
            lemma_clean_concat("PushBool:"@, "false"@);
        },
        InstructionView::PushString(t) => {
            lemma_clean_escape(t);
            lemma_clean_concat("PushString:"@, escape(t));
        },
        InstructionView::LoadVariable(t) => {
            lemma_clean_escape(t);
            lemma_clean_concat("LoadVariable:"@, escape(t));
        },
        InstructionView::StoreVariable(t) => {
            lemma_clean_escape(t);
            lemma_clean_concat("StoreVariable:"@, escape(t));
        },
        InstructionView::MakeArray { length } => {
            lemma_clean_decimal(length as nat);
            lemma_clean_concat("MakeArray:"@, decimal(length as nat));
        },
        InstructionView::Binary { op } => {
            lemma_clean_names(op, UnaryOperator::Not);
            lemma_clean_concat("Binary:"@, binary_name(op));
        },
        InstructionView::Unary { op } => {
            lemma_clean_names(BinaryOperator::Add, op);
            lemma_clean_concat("Unary:"@, unary_name(op));
        },
        InstructionView::ShortCircuitAnd { right } => {
            lemma_clean_code(right);
            lemma_clean_block(encode_sequence(right));
            lemma_clean_concat("And"@, block(encode_sequence(right)));
        },
        InstructionView::ShortCircuitOr { right } => {
            lemma_clean_code(right);
            lemma_clean_block(encode_sequence(right));
            lemma_clean_concat("Or"@, block(encode_sequence(right)));
        },
        InstructionView::Call { name, argument_count } => {
            lemma_clean_escape(name);
            lemma_clean_decimal(argument_count as nat);
            lemma_clean_concat("Call:"@, escape(name));
            lemma_clean_concat("Call:"@ + escape(name), "|"@);
            lemma_clean_concat("Call:"@ + escape(name) + "|"@, decimal(argument_count as nat));
        },
        InstructionView::If { then_body, else_body } => {
            lemma_clean_code(then_body);
            lemma_clean_code(else_body);
            lemma_clean_block(encode_sequence(then_body));
            lemma_clean_block(encode_sequence(else_body));
            lemma_clean_concat("If"@, block(encode_sequence(then_body)));
            lemma_clean_concat(
                "If"@ + block(encode_sequence(then_body)),
                block(encode_sequence(else_body)),
            );
        },
        InstructionView::While { condition, body } => {
            lemma_clean_code(condition);
            lemma_clean_code(body);
            lemma_clean_block(encode_sequence(condition));
            lemma_clean_block(encode_sequence(body));
            lemma_clean_concat("While"@, block(encode_sequence(condition)));
            lemma_clean_concat(
                "While"@ + block(encode_sequence(condition)),
                block(encode_sequence(body)),
            );
        },
        InstructionView::For { initializer, condition, update, body } => {
            lemma_clean_code(initializer);
            lemma_clean_code(condition);
            lemma_clean_code(update);
            lemma_clean_code(body);
            let a = block(encode_sequence(initializer));
            let b = block(encode_sequence(condition));
            let c = block(encode_sequence(update));
            let d = block(encode_sequence(body));
            lemma_clean_block(encode_sequence(initializer));
            lemma_clean_block(encode_sequence(condition));
            lemma_clean_block(encode_sequence(update));
            lemma_clean_block(encode_sequence(body));
            lemma_clean_concat("For"@, a);
            lemma_clean_concat("For"@ + a, b);
            lemma_clean_concat("For"@ + a + b, c);
            lemma_clean_concat("For"@ + a + b + c, d);
        },
        _ => {},
    }
}

pub proof fn lemma_clean_code(is: Seq<InstructionView>)
    requires
        clean_code(is),
    ensures
        clean(encode_sequence(is)),
    decreases is,
{
    if is.len() == 1 {
        assert(is[0] == is.last());
        lemma_clean_instruction(is[0]);
    } else if is.len() > 1 {
        reveal_strlit(";");
        lemma_clean_code(is.drop_last());
        lemma_clean_instruction(is.last());
        lemma_clean_concat(encode_sequence(is.drop_last()), ";"@);
        lemma_clean_concat(encode_sequence(is.drop_last()) + ";"@, encode_instruction(is.last()));
    }
}

pub proof fn lemma_clean_lines(fs: Seq<CompiledFunctionView>)
    requires
        clean_functions(fs),
    ensures
        forall|k: int| 0 <= k < artifact_lines(fs).len() ==> clean(#[trigger] artifact_lines(fs)[k]),
    decreases fs.len(),
{
    reveal_strlit("AXIOM_ARTIFACT_V1");
    if fs.len() > 0 {
        let init = fs.drop_last();
        assert(clean_functions(init)) by {
            assert forall|j: int| 0 <= j < init.len() implies #[trigger] clean(init[j].name) by {
                assert(init[j] == fs[j]);
            }
            assert forall|j: int| 0 <= j < init.len() implies {
                &&& clean(#[trigger] init[j].name)
                &&& forall|p: int| 0 <= p < init[j].parameters.len() ==> clean(init[j].parameters[p])
                &&& clean_code(init[j].instructions)
            } by {
                assert(init[j] == fs[j]);
            }
        }
        lemma_clean_lines(init);
        let f = fs.last();
        assert(f == fs[fs.len() - 1]);
        assert(clean(f.name));
        reveal_strlit("FUNCTION:");
        reveal_strlit("PARAMS:");
        reveal_strlit("PARAM:");
        reveal_strlit("INSTR:");
        lemma_clean_escape(f.name);
        lemma_clean_concat("FUNCTION:"@, escape(f.name));
        lemma_clean_decimal(f.parameters.len());
        lemma_clean_concat("PARAMS:"@, decimal(f.parameters.len()));
        lemma_clean_code(f.instructions);
        lemma_clean_concat("INSTR:"@, encode_sequence(f.instructions));
        let fl = function_lines(f);
        assert forall|k: int| 0 <= k < fl.len() implies clean(#[trigger] fl[k]) by {
            if 2 <= k < 2 + f.parameters.len() {
                let p = f.parameters[k - 2];
                assert(fl[k] == "PARAM:"@ + escape(p));
                lemma_clean_escape(p);
                lemma_clean_concat("PARAM:"@, escape(p));
            }
        }
        let all = artifact_lines(fs);
        let before = artifact_lines(init);
        assert(all == before + fl);
        assert forall|k: int| 0 <= k < all.len() implies clean(#[trigger] all[k]) by {
            if k < before.len() {
                assert(all[k] == before[k]);
            } else {
                assert(all[k] == fl[k - before.len()]);
            }
        }
    } else {
        assert(artifact_lines(fs) == seq![header()]);
    }
}

/// Writing an artifact whose names, parameters and texts hold no line feed
/// and no carriage return, and reading the text back, gives the artifact.
pub proof fn law_clean_artifact_round_trip(fs: Seq<CompiledFunctionView>)
    requires
        forall|j: int| 0 <= j < fs.len() ==> #[trigger] fs[j].parameters.len() <= usize::MAX,
        clean_functions(fs),
    ensures
        deserialize_text(serialize_text(fs)) == Ok::<Seq<CompiledFunctionView>, Seq<char>>(fs),
{
    lemma_clean_lines(fs);
    let lines = artifact_lines(fs);
    assert forall|k: int| 0 <= k < lines.len() implies #[trigger] no_newline(lines[k]) by {
        assert(clean(lines[k]));
    }
    assert forall|k: int| 0 <= k < lines.len() - 1 implies !(#[trigger] lines[k].len() > 0
        && lines[k].last() == '\r') by {
        assert(clean(lines[k]));
        if lines[k].len() > 0 {
            assert(lines[k].last() == lines[k][lines[k].len() - 1]);
        }
    }
    law_artifact_round_trip(fs);
}
} // verus!
