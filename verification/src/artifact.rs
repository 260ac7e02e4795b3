//! The `.axm` text format of artifacts: a header line, then for each function
//! its name, its parameters and its code, one instruction sequence per line.
//! Names and strings are escaped so that the separators of the format can
//! occur in them.
use vstd::prelude::*;
use crate::ast::{BinaryOperator, UnaryOperator};
use crate::ir::{
    Instruction, InstructionView, instruction_view, instructions_view, lemma_instructions_view,
    lemma_instructions_view_push, strings_view,
};
use crate::vm::{Artifact, CompiledFunction, CompiledFunctionView, VmError, compiled_function_view};
use crate::text::{
    chars_of, decimal, i64_value, int_text, int_to_chars, parse_i64, parse_usize, push_char,
    string_from, usize_to_chars, usize_value,
};

verus! {

/// The characters that the format escapes with a backslash.
pub open spec fn is_special(c: char) -> bool {
    c == '\\' || c == ';' || c == '|' || c == '[' || c == ']' || c == ':'
}

/// The escaped text of a character.
pub open spec fn escape_char(c: char) -> Seq<char> {
    if is_special(c) {
        seq!['\\', c]
    } else {
        seq![c]
    }
}

/// `s` with a backslash before each special character.
pub open spec fn escape(s: Seq<char>) -> Seq<char>
    decreases s.len(),
{
    if s.len() == 0 {
        seq![]
    } else {
        escape(s.drop_last()) + escape_char(s.last())
    }
}

/// `s` with each backslash removed and the character after it kept as it is
/// (a backslash at the very end is dropped).
pub open spec fn unescape(s: Seq<char>) -> Seq<char>
    decreases s.len(),
{
    if s.len() == 0 {
        seq![]
    } else if s[0] == '\\' {
        if s.len() == 1 {
            seq![]
        } else {
            seq![s[1]] + unescape(s.subrange(2, s.len() as int))
        }
    } else {
        seq![s[0]] + unescape(s.drop_first())
    }
}

/// What is left to unescape from position `i` on, when the character before
/// it was a backslash (`escaped`) or not.
pub open spec fn unescape_rest(s: Seq<char>, i: int, escaped: bool) -> Seq<char> {
    if escaped {
        if i < s.len() {
            seq![s[i]] + unescape(s.subrange(i + 1, s.len() as int))
        } else {
            seq![]
        }
    } else {
        unescape(s.subrange(i, s.len() as int))
    }
}

pub proof fn lemma_escape_append(a: Seq<char>, b: Seq<char>)
    ensures
        escape(a + b) == escape(a) + escape(b),
    decreases b.len(),
{
    if b.len() == 0 {
        assert(a + b =~= a);
        assert(escape(b) =~= seq![]);
        assert(escape(a) + escape(b) =~= escape(a));
    } else {
        assert((a + b).drop_last() =~= a + b.drop_last());
        lemma_escape_append(a, b.drop_last());
        assert((a + b).last() == b.last());
    }
}

/// Unescaping undoes escaping.
pub proof fn lemma_unescape_escape(s: Seq<char>)
    ensures
        unescape(escape(s)) == s,
    decreases s.len(),
{
    if s.len() > 0 {
        let rest = s.drop_first();
        assert(s =~= seq![s[0]] + rest);
        lemma_escape_append(seq![s[0]], rest);
        let one = seq![s[0]];
        assert(escape(one) =~= escape_char(s[0])) by {
            assert(one.drop_last() =~= Seq::<char>::empty());
            assert(escape(one.drop_last()) =~= Seq::<char>::empty());
            assert(one.last() == s[0]);
        }
        lemma_unescape_escape(rest);
        let e = escape(s);
        if is_special(s[0]) {
            assert(e =~= seq!['\\', s[0]] + escape(rest));
            assert(e.subrange(2, e.len() as int) =~= escape(rest));
        } else {
            assert(e =~= seq![s[0]] + escape(rest));
            assert(e.drop_first() =~= escape(rest));
        }
    }
}

/// Escapes `s` onto the end of `out`.
pub fn escape_into(s: &str, out: &mut String)
    ensures
        final(out)@ == old(out)@ + escape(s@),
{
    let cs = crate::text::chars_of(s);
    let ghost start = out@;
    let mut i: usize = 0;
    while i < cs.len()
        invariant
            i <= cs@.len(),
            cs@ == s@,
            out@ == start + escape(cs@.subrange(0, i as int)),
        decreases cs@.len() - i,
    {
        let c = cs[i];
        if c == '\\' || c == ';' || c == '|' || c == '[' || c == ']' || c == ':' {
            push_char(out, '\\');
        }
        push_char(out, c);
        proof {
            assert(cs@.subrange(0, i + 1).drop_last() =~= cs@.subrange(0, i as int));
        }
        i = i + 1;
    }
    proof {
        assert(cs@.subrange(0, cs@.len() as int) =~= cs@);
    }
}

/// Removes the escapes of `cs`.
pub fn unescape_chars(cs: &Vec<char>) -> (r: String)
    ensures
        r@ == unescape(cs@),
{
    let mut out = String::new();
    let mut escaped = false;
    let mut i: usize = 0;
    proof {
        assert(cs@.subrange(0, cs@.len() as int) =~= cs@);
    }
    while i < cs.len()
        invariant
            i <= cs@.len(),
            out@ + unescape_rest(cs@, i as int, escaped) == unescape(cs@),
        decreases cs@.len() - i,
    {
        let c = cs[i];
        let ghost rest = cs@.subrange(i as int, cs@.len() as int);
        proof {
            assert(rest[0] == c);
            assert(rest.drop_first() =~= cs@.subrange(i + 1, cs@.len() as int));
        }
        if escaped {
            push_char(&mut out, c);
            escaped = false;
        } else if c == '\\' {
            escaped = true;
            proof {
                if i + 1 < cs@.len() {
                    assert(rest.subrange(2, rest.len() as int) =~= cs@.subrange(
                        i + 2,
                        cs@.len() as int,
                    ));
                    assert(rest[1] == cs@[i + 1]);
                }
            }
        } else {
            push_char(&mut out, c);
        }
        proof {
            assert(out@ + unescape_rest(cs@, i + 1, escaped) =~= unescape(cs@));
        }
        i = i + 1;
    }
    out
}


/// `line` without one trailing carriage return.
pub open spec fn strip_cr(line: Seq<char>) -> Seq<char> {
    if line.len() > 0 && line.last() == '\r' {
        line.drop_last()
    } else {
        line
    }
}

/// The lines of `s` from position `i` on, as `str::lines` gives them: the
/// text is cut after each `\n`, a line so ended loses the `\n` and one `\r`
/// before it, and an empty piece after the last `\n` is no line.
pub open spec fn lines_scan(s: Seq<char>, i: int, current: Seq<char>, lines: Seq<Seq<char>>) -> Seq<
    Seq<char>,
>
    decreases s.len() - i,
{
    if i >= s.len() {
        if current.len() == 0 {
            lines
        } else {
            lines.push(current)
        }
    } else if s[i] == '\n' {
        lines_scan(s, i + 1, seq![], lines.push(strip_cr(current)))
    } else {
        lines_scan(s, i + 1, current.push(s[i]), lines)
    }
}

pub open spec fn text_lines(s: Seq<char>) -> Seq<Seq<char>> {
    lines_scan(s, 0, seq![], seq![])
}

pub open spec fn chars_views(v: Seq<Vec<char>>) -> Seq<Seq<char>> {
    v.map_values(|x: Vec<char>| x@)
}

fn strip_cr_chars(line: Vec<char>) -> (r: Vec<char>)
    ensures
        r@ == strip_cr(line@),
{
    let mut line = line;
    let n = line.len();
    if n > 0 && line[n - 1] == '\r' {
        line.pop();
    }
    line
}

/// `str::lines`, on characters.
pub fn lines_of(s: &Vec<char>) -> (r: Vec<Vec<char>>)
    ensures
        chars_views(r@) == text_lines(s@),
{
    let mut lines: Vec<Vec<char>> = Vec::new();
    let mut current: Vec<char> = Vec::new();
    let mut i: usize = 0;
    proof {
        assert(chars_views(lines@) =~= seq![]);
        assert(current@ =~= seq![]);
    }
    while i < s.len()
        invariant
            i <= s@.len(),
            lines_scan(s@, i as int, current@, chars_views(lines@)) == text_lines(s@),
        decreases s@.len() - i,
    {
        if s[i] == '\n' {
            let done = strip_cr_chars(current);
            let ghost before = lines@;
            lines.push(done);
            proof {
                assert(chars_views(lines@) =~= chars_views(before).push(done@));
            }
            current = Vec::new();
            proof {
                assert(current@ =~= seq![]);
            }
        } else {
            current.push(s[i]);
        }
        i = i + 1;
    }
    if current.len() > 0 {
        let ghost before = lines@;
        lines.push(current);
        proof {
            assert(chars_views(lines@) =~= chars_views(before).push(current@));
        }
    }
    lines
}

/// The bracket depth after `c` when splitting at `delimiter`: brackets nest
/// only when splitting instruction sequences.
pub open spec fn split_depth(delimiter: char, c: char, depth: nat) -> nat {
    if delimiter == ';' && c == '[' {
        depth + 1
    } else if delimiter == ';' && c == ']' && depth > 0 {
        (depth - 1) as nat
    } else {
        depth
    }
}

/// The pieces of `s` cut at each `delimiter` that is not escaped and not
/// inside brackets, scanning from position `i` with the piece `current` under
/// way; an escaping backslash stays in its piece.
pub open spec fn split_scan(
    s: Seq<char>,
    delimiter: char,
    i: int,
    escaped: bool,
    depth: nat,
    current: Seq<char>,
    parts: Seq<Seq<char>>,
) -> Seq<Seq<char>>
    decreases s.len() - i,
{
    if i >= s.len() {
        parts.push(current)
    } else {
        let c = s[i];
        if escaped {
            split_scan(s, delimiter, i + 1, false, depth, current.push(c), parts)
        } else if c == '\\' {
            split_scan(s, delimiter, i + 1, true, depth, current.push(c), parts)
        } else {
            let d = split_depth(delimiter, c, depth);
            if c == delimiter && d == 0 {
                split_scan(s, delimiter, i + 1, false, d, seq![], parts.push(current))
            } else {
                split_scan(s, delimiter, i + 1, false, d, current.push(c), parts)
            }
        }
    }
}

pub open spec fn split_escaped(s: Seq<char>, delimiter: char) -> Seq<Seq<char>> {
    split_scan(s, delimiter, 0, false, 0, seq![], seq![])
}

/// No piece is longer than the text it was cut from.
pub proof fn lemma_split_scan_len(
    s: Seq<char>,
    delimiter: char,
    i: int,
    escaped: bool,
    depth: nat,
    current: Seq<char>,
    parts: Seq<Seq<char>>,
)
    requires
        0 <= i <= s.len(),
        current.len() <= i,
        forall|k: int| 0 <= k < parts.len() ==> #[trigger] parts[k].len() <= s.len(),
    ensures
        forall|k: int|
            0 <= k < split_scan(s, delimiter, i, escaped, depth, current, parts).len()
                ==> #[trigger] split_scan(s, delimiter, i, escaped, depth, current, parts)[k].len()
                <= s.len(),
    decreases s.len() - i,
{
    let grown = parts.push(current);
    assert forall|k: int| 0 <= k < grown.len() implies #[trigger] grown[k].len() <= s.len() by {
        if k < parts.len() {
            assert(grown[k] == parts[k]);
        }
    }
    let r = split_scan(s, delimiter, i, escaped, depth, current, parts);
    if i < s.len() {
        let c = s[i];
        if escaped {
            lemma_split_scan_len(s, delimiter, i + 1, false, depth, current.push(c), parts);
            assert(r == split_scan(s, delimiter, i + 1, false, depth, current.push(c), parts));
        } else if c == '\\' {
            lemma_split_scan_len(s, delimiter, i + 1, true, depth, current.push(c), parts);
            assert(r == split_scan(s, delimiter, i + 1, true, depth, current.push(c), parts));
        } else {
            let d = split_depth(delimiter, c, depth);
            if c == delimiter && d == 0 {
                lemma_split_scan_len(s, delimiter, i + 1, false, d, seq![], grown);
                assert(r == split_scan(s, delimiter, i + 1, false, d, seq![], grown));
            } else {
                lemma_split_scan_len(s, delimiter, i + 1, false, d, current.push(c), parts);
                assert(r == split_scan(s, delimiter, i + 1, false, d, current.push(c), parts));
            }
        }
    } else {
        assert(r == grown);
    }
}

pub proof fn lemma_split_escaped_len(s: Seq<char>, delimiter: char)
    ensures
        forall|k: int|
            0 <= k < split_escaped(s, delimiter).len() ==> #[trigger] split_escaped(
                s,
                delimiter,
            )[k].len() <= s.len(),
{
    lemma_split_scan_len(s, delimiter, 0, false, 0, seq![], seq![]);
}

/// The pieces joined back, with `delimiter` between each two.
pub open spec fn join_with(parts: Seq<Seq<char>>, delimiter: char) -> Seq<char>
    decreases parts.len(),
{
    if parts.len() == 0 {
        seq![]
    } else if parts.len() == 1 {
        parts[0]
    } else {
        join_with(parts.drop_last(), delimiter).push(delimiter) + parts.last()
    }
}

pub proof fn lemma_join_with_grow(parts: Seq<Seq<char>>, current: Seq<char>, c: char, delimiter: char)
    ensures
        join_with(parts.push(current.push(c)), delimiter) == join_with(
            parts.push(current),
            delimiter,
        ).push(c),
{
    assert(parts.push(current.push(c)).drop_last() =~= parts);
    assert(parts.push(current).drop_last() =~= parts);
    if parts.len() > 0 {
        let j = join_with(parts, delimiter).push(delimiter);
        assert(j + current.push(c) =~= (j + current).push(c));
    }
}

pub proof fn lemma_split_scan_join(
    s: Seq<char>,
    delimiter: char,
    i: int,
    escaped: bool,
    depth: nat,
    current: Seq<char>,
    parts: Seq<Seq<char>>,
)
    requires
        0 <= i <= s.len(),
    ensures
        join_with(split_scan(s, delimiter, i, escaped, depth, current, parts), delimiter) == join_with(
            parts.push(current),
            delimiter,
        ) + s.subrange(i, s.len() as int),
    decreases s.len() - i,
{
    let here = join_with(parts.push(current), delimiter);
    if i >= s.len() {
        assert(here + s.subrange(i, s.len() as int) =~= here);
    } else {
        let c = s[i];
        let d = split_depth(delimiter, c, depth);
        assert(s.subrange(i, s.len() as int) =~= seq![c] + s.subrange(i + 1, s.len() as int));
        if !escaped && c != '\\' && c == delimiter && d == 0 {
            lemma_split_scan_join(s, delimiter, i + 1, false, d, seq![], parts.push(current));
            let grown = parts.push(current).push(Seq::<char>::empty());
            assert(grown.drop_last() =~= parts.push(current));
            assert(join_with(grown, delimiter) =~= here.push(delimiter));
            assert(here.push(delimiter) + s.subrange(i + 1, s.len() as int) =~= here + (seq![c]
                + s.subrange(i + 1, s.len() as int)));
        } else {
            let e = !escaped && c == '\\';
            let nd = if escaped || c == '\\' {
                depth
            } else {
                d
            };
            lemma_split_scan_join(s, delimiter, i + 1, e, nd, current.push(c), parts);
            lemma_join_with_grow(parts, current, c, delimiter);
            assert(here.push(c) + s.subrange(i + 1, s.len() as int) =~= here + (seq![c] + s.subrange(
                i + 1,
                s.len() as int,
            )));
        }
    }
}

/// Joining the pieces of a split with its delimiter gives the text back.
pub proof fn law_split_join(s: Seq<char>, delimiter: char)
    ensures
        join_with(split_escaped(s, delimiter), delimiter) == s,
{
    lemma_split_scan_join(s, delimiter, 0, false, 0, seq![], seq![]);
    assert(Seq::<Seq<char>>::empty().push(Seq::<char>::empty()) =~= seq![Seq::<char>::empty()]);
    assert(Seq::<char>::empty() + s.subrange(0, s.len() as int) =~= s);
}

/// Whether the scan is escaped, and its bracket depth, just before index `k`
/// of `s`.
pub open spec fn split_state(s: Seq<char>, delimiter: char, k: int) -> (bool, nat)
    decreases k,
{
    if k <= 0 {
        (false, 0)
    } else {
        let (escaped, depth) = split_state(s, delimiter, k - 1);
        let c = s[k - 1];
        if escaped {
            (false, depth)
        } else if c == '\\' {
            (true, depth)
        } else {
            (false, split_depth(delimiter, c, depth))
        }
    }
}

/// Whether the split cuts `s` at index `k`: a delimiter there, not escaped,
/// and (for instruction sequences) outside brackets.
pub open spec fn is_cut(s: Seq<char>, delimiter: char, k: int) -> bool {
    let (escaped, depth) = split_state(s, delimiter, k);
    &&& 0 <= k < s.len()
    &&& !escaped
    &&& s[k] != '\\'
    &&& s[k] == delimiter
    &&& split_depth(delimiter, s[k], depth) == 0
}

/// The indices below `n` where the split cuts, in increasing order.
pub open spec fn cuts(s: Seq<char>, delimiter: char, n: int) -> Seq<int>
    decreases n,
{
    if n <= 0 {
        seq![]
    } else if is_cut(s, delimiter, n - 1) {
        cuts(s, delimiter, n - 1).push(n - 1)
    } else {
        cuts(s, delimiter, n - 1)
    }
}

/// The start of piece `k` when the cuts are `cs`.
pub open spec fn piece_start(cs: Seq<int>, k: int) -> int {
    if k == 0 {
        0
    } else {
        cs[k - 1] + 1
    }
}

pub proof fn lemma_cuts_below(s: Seq<char>, delimiter: char, n: int)
    requires
        0 <= n,
    ensures
        forall|k: int| 0 <= k < cuts(s, delimiter, n).len() ==> #[trigger] cuts(s, delimiter, n)[k]
            < n && 0 <= cuts(s, delimiter, n)[k],
    decreases n,
{
    if n > 0 {
        lemma_cuts_below(s, delimiter, n - 1);
        let before = cuts(s, delimiter, n - 1);
        let now = cuts(s, delimiter, n);
        assert forall|k: int| 0 <= k < now.len() implies #[trigger] now[k] < n && 0 <= now[k] by {
            if k < before.len() {
                assert(now[k] == before[k]);
            }
        }
    }
}

pub proof fn lemma_split_scan_cuts(
    s: Seq<char>,
    delimiter: char,
    i: int,
    escaped: bool,
    depth: nat,
    current: Seq<char>,
    parts: Seq<Seq<char>>,
)
    requires
        0 <= i <= s.len(),
        (escaped, depth) == split_state(s, delimiter, i),
        parts.len() == cuts(s, delimiter, i).len(),
        forall|k: int|
            0 <= k < parts.len() ==> #[trigger] parts[k] == s.subrange(
                piece_start(cuts(s, delimiter, i), k),
                cuts(s, delimiter, i)[k],
            ),
        current == s.subrange(piece_start(cuts(s, delimiter, i), parts.len() as int), i),
    ensures
        ({
            let r = split_scan(s, delimiter, i, escaped, depth, current, parts);
            let cs = cuts(s, delimiter, s.len() as int);
            &&& r.len() == cs.len() + 1
            &&& forall|k: int|
                0 <= k < r.len() ==> #[trigger] r[k] == s.subrange(
                    piece_start(cs, k),
                    if k < cs.len() {
                        cs[k]
                    } else {
                        s.len() as int
                    },
                )
        }),
    decreases s.len() - i,
{
    let cs = cuts(s, delimiter, i);
    if i >= s.len() {
        let r = parts.push(current);
        assert forall|k: int| 0 <= k < r.len() implies #[trigger] r[k] == s.subrange(
            piece_start(cs, k),
            if k < cs.len() {
                cs[k]
            } else {
                s.len() as int
            },
        ) by {
            if k < parts.len() {
                assert(r[k] == parts[k]);
            }
        }
    } else {
        let c = s[i];
        let d = split_depth(delimiter, c, depth);
        let cs1 = cuts(s, delimiter, i + 1);
        lemma_cuts_below(s, delimiter, i);
        if !escaped && c != '\\' && c == delimiter && d == 0 {
            assert(is_cut(s, delimiter, i));
            assert(cs1 == cs.push(i));
            let grown = parts.push(current);
            assert forall|k: int| 0 <= k < grown.len() implies #[trigger] grown[k] == s.subrange(
                piece_start(cs1, k),
                cs1[k],
            ) by {
                if k < parts.len() {
                    assert(grown[k] == parts[k]);
                    assert(cs1[k] == cs[k]);
                    if k > 0 {
                        assert(cs1[k - 1] == cs[k - 1]);
                    }
                } else {
                    if k > 0 {
                        assert(cs1[k - 1] == cs[k - 1]);
                    }
                }
            }
            assert(piece_start(cs1, grown.len() as int) == i + 1);
            assert(Seq::<char>::empty() =~= s.subrange(i + 1, i + 1));
            lemma_split_scan_cuts(s, delimiter, i + 1, false, d, seq![], grown);
        } else {
            assert(!is_cut(s, delimiter, i));
            assert(cs1 == cs);
            let e = !escaped && c == '\\';
            let nd = if escaped || c == '\\' {
                depth
            } else {
                d
            };
            assert(current.push(c) =~= s.subrange(piece_start(cs, parts.len() as int), i + 1));
            lemma_split_scan_cuts(s, delimiter, i + 1, e, nd, current.push(c), parts);
        }
    }
}

/// The pieces of a split: one more than the cuts, each the text between
/// two cuts (or an end of the text), the cuts being the unescaped
/// delimiters outside brackets.
pub proof fn law_split_pieces(s: Seq<char>, delimiter: char)
    ensures
        ({
            let parts = split_escaped(s, delimiter);
            let cs = cuts(s, delimiter, s.len() as int);
            &&& parts.len() == cs.len() + 1
            &&& forall|k: int|
                0 <= k < parts.len() ==> #[trigger] parts[k] == s.subrange(
                    piece_start(cs, k),
                    if k < cs.len() {
                        cs[k]
                    } else {
                        s.len() as int
                    },
                )
        }),
{
    assert(Seq::<char>::empty() =~= s.subrange(0, 0));
    lemma_split_scan_cuts(s, delimiter, 0, false, 0, seq![], seq![]);
}

/// `split_escaped` on characters.
pub fn split_chars(s: &Vec<char>, delimiter: char) -> (r: Vec<Vec<char>>)
    ensures
        chars_views(r@) == split_escaped(s@, delimiter),
{
    let mut parts: Vec<Vec<char>> = Vec::new();
    let mut current: Vec<char> = Vec::new();
    let mut escaped = false;
    let mut depth: usize = 0;
    let mut i: usize = 0;
    proof {
        assert(chars_views(parts@) =~= seq![]);
        assert(current@ =~= seq![]);
    }
    while i < s.len()
        invariant
            i <= s@.len(),
            depth <= i,
            split_scan(s@, delimiter, i as int, escaped, depth as nat, current@, chars_views(parts@))
                == split_escaped(s@, delimiter),
        decreases s@.len() - i,
    {
        let c = s[i];
        if escaped {
            current.push(c);
            escaped = false;
        } else if c == '\\' {
            current.push(c);
            escaped = true;
        } else {
            if delimiter == ';' && c == '[' {
                depth = depth + 1;
            } else if delimiter == ';' && c == ']' && depth > 0 {
                depth = depth - 1;
            }
            if c == delimiter && depth == 0 {
                let ghost before = parts@;
                parts.push(current);
                proof {
                    assert(chars_views(parts@) =~= chars_views(before).push(current@));
                }
                current = Vec::new();
                proof {
                    assert(current@ =~= seq![]);
                }
            } else {
                current.push(c);
            }
        }
        i = i + 1;
    }
    let ghost before = parts@;
    parts.push(current);
    proof {
        assert(chars_views(parts@) =~= chars_views(before).push(current@));
    }
    parts
}

/// The first bracketed block of `s`, scanning from position `i`: the position
/// just after its opening bracket and that of its closing bracket.
/// Escaped characters are skipped; `start` is negative while no block has
/// been opened.
pub open spec fn bracket_scan(s: Seq<char>, i: int, escaped: bool, depth: nat, start: int) -> Result<
    (int, int),
    Seq<char>,
>
    decreases s.len() - i,
{
    if i >= s.len() {
        if start < 0 {
            Err("missing block start"@)
        } else {
            Err("missing block end"@)
        }
    } else {
        let c = s[i];
        if escaped {
            bracket_scan(s, i + 1, false, depth, start)
        } else if c == '\\' {
            bracket_scan(s, i + 1, true, depth, start)
        } else if c == '[' {
            bracket_scan(
                s,
                i + 1,
                false,
                depth + 1,
                if depth == 0 {
                    i + 1
                } else {
                    start
                },
            )
        } else if c == ']' {
            if depth == 0 {
                Err("invalid bracketed block"@)
            } else if depth == 1 {
                Ok((start, i))
            } else {
                bracket_scan(s, i + 1, false, (depth - 1) as nat, start)
            }
        } else {
            bracket_scan(s, i + 1, false, depth, start)
        }
    }
}

pub open spec fn extract_bracketed(s: Seq<char>) -> Result<(int, int), Seq<char>> {
    bracket_scan(s, 0, false, 0, -1)
}

/// A block lies inside the text, after its opening bracket.
pub proof fn lemma_bracket_scan_bounds(s: Seq<char>, i: int, escaped: bool, depth: nat, start: int)
    requires
        0 <= i <= s.len(),
        depth > 0 ==> 1 <= start <= i,
    ensures
        bracket_scan(s, i, escaped, depth, start) matches Ok((a, b)) ==> 1 <= a <= b < s.len(),
    decreases s.len() - i,
{
    if i < s.len() {
        let c = s[i];
        if escaped || c == '\\' {
            lemma_bracket_scan_bounds(s, i + 1, !escaped && c == '\\', depth, start);
        } else if c == '[' {
            lemma_bracket_scan_bounds(
                s,
                i + 1,
                false,
                depth + 1,
                if depth == 0 {
                    i + 1
                } else {
                    start
                },
            );
        } else if c == ']' {
            if depth > 1 {
                lemma_bracket_scan_bounds(s, i + 1, false, (depth - 1) as nat, start);
            }
        } else {
            lemma_bracket_scan_bounds(s, i + 1, false, depth, start);
        }
    }
}

pub proof fn lemma_extract_bounds(s: Seq<char>)
    ensures
        extract_bracketed(s) matches Ok((a, b)) ==> 1 <= a <= b < s.len(),
{
    lemma_bracket_scan_bounds(s, 0, false, 0, -1);
}

/// `extract_bracketed` on characters.
pub fn extract_chars(s: &Vec<char>) -> (r: Result<(usize, usize), String>)
    ensures
        match r {
            Ok((a, b)) => extract_bracketed(s@) == Ok::<(int, int), Seq<char>>((a as int, b as int)),
            Err(m) => extract_bracketed(s@) == Err::<(int, int), Seq<char>>(m@),
        },
{
    let mut escaped = false;
    let mut depth: usize = 0;
    let mut start: Option<usize> = None;
    let mut i: usize = 0;
    proof {
        lemma_bracket_scan_bounds(s@, 0, false, 0, -1);
    }
    while i < s.len()
        invariant
            i <= s@.len(),
            depth <= i,
            depth > 0 ==> start is Some && 1 <= start->0 <= i,
            bracket_scan(
                s@,
                i as int,
                escaped,
                depth as nat,
                match start {
                    Some(k) => k as int,
                    None => -1,
                },
            ) == extract_bracketed(s@),
            start is Some ==> start->0 <= i,
        decreases s@.len() - i,
    {
        let c = s[i];
        if escaped {
            escaped = false;
        } else if c == '\\' {
            escaped = true;
        } else if c == '[' {
            if depth == 0 {
                start = Some(i + 1);
            }
            depth = depth + 1;
        } else if c == ']' {
            if depth == 0 {
                return Err("invalid bracketed block".to_owned());
            }
            if depth == 1 {
                return Ok((start.unwrap(), i));
            }
            depth = depth - 1;
        }
        i = i + 1;
    }
    match start {
        None => Err("missing block start".to_owned()),
        Some(_) => Err("missing block end".to_owned()),
    }
}

pub open spec fn binary_name(op: BinaryOperator) -> Seq<char> {
    match op {
        BinaryOperator::Add => "Add"@,
        BinaryOperator::Subtract => "Subtract"@,
        BinaryOperator::Multiply => "Multiply"@,
        BinaryOperator::Divide => "Divide"@,
        BinaryOperator::Modulo => "Modulo"@,
        BinaryOperator::Greater => "Greater"@,
        BinaryOperator::GreaterEqual => "GreaterEqual"@,
        BinaryOperator::Less => "Less"@,
        BinaryOperator::LessEqual => "LessEqual"@,
        BinaryOperator::Equal => "Equal"@,
        BinaryOperator::NotEqual => "NotEqual"@,
        BinaryOperator::And => "And"@,
        BinaryOperator::Or => "Or"@,
    }
}

pub open spec fn unary_name(op: UnaryOperator) -> Seq<char> {
    match op {
        UnaryOperator::Not => "Not"@,
        UnaryOperator::Negate => "Negate"@,
    }
}

/// Nested code in brackets.
pub open spec fn block(code: Seq<char>) -> Seq<char> {
    "["@ + code + "]"@
}

/// The text of one instruction; nested code stands in brackets.
pub open spec fn encode_instruction(i: InstructionView) -> Seq<char>
    decreases i,
{
    match i {
        InstructionView::PushInt(v) => "PushInt:"@ + int_text(v as int),
        InstructionView::PushFloat(t) => "PushFloat:"@ + escape(t),
        InstructionView::PushBool(b) => "PushBool:"@ + if b {
            "true"@
        } else {
            "false"@
        },
        InstructionView::PushString(t) => "PushString:"@ + escape(t),
        InstructionView::LoadVariable(n) => "LoadVariable:"@ + escape(n),
        InstructionView::StoreVariable(n) => "StoreVariable:"@ + escape(n),
        InstructionView::MakeArray { length } => "MakeArray:"@ + decimal(length as nat),
        InstructionView::Binary { op } => "Binary:"@ + binary_name(op),
        InstructionView::ShortCircuitAnd { right } => "And"@ + block(encode_sequence(right)),
        InstructionView::ShortCircuitOr { right } => "Or"@ + block(encode_sequence(right)),
        InstructionView::Unary { op } => "Unary:"@ + unary_name(op),
        InstructionView::Call { name, argument_count } => "Call:"@ + escape(name) + "|"@ + decimal(
            argument_count as nat,
        ),
        InstructionView::Index => "Index"@,
        InstructionView::StoreIndex => "StoreIndex"@,
        InstructionView::Print => "Print"@,
        InstructionView::Return => "Return"@,
        InstructionView::If { then_body, else_body } => "If"@ + block(encode_sequence(then_body))
            + block(encode_sequence(else_body)),
        InstructionView::While { condition, body } => "While"@ + block(encode_sequence(condition))
            + block(encode_sequence(body)),
        InstructionView::For { initializer, condition, update, body } => "For"@ + block(
            encode_sequence(initializer),
        ) + block(encode_sequence(condition)) + block(encode_sequence(update)) + block(
            encode_sequence(body),
        ),
        InstructionView::Break => "Break"@,
        InstructionView::Continue => "Continue"@,
    }
}

/// The texts of the instructions, separated by `;`.
pub open spec fn encode_sequence(is: Seq<InstructionView>) -> Seq<char>
    decreases is,
{
    if is.len() == 0 {
        seq![]
    } else if is.len() == 1 {
        encode_instruction(is[0])
    } else {
        encode_sequence(is.drop_last()) + ";"@ + encode_instruction(is.last())
    }
}

fn append_binary_name(op: BinaryOperator, out: &mut String)
    ensures
        final(out)@ == old(out)@ + binary_name(op),
{
    match op {
        BinaryOperator::Add => out.append("Add"),
        BinaryOperator::Subtract => out.append("Subtract"),
        BinaryOperator::Multiply => out.append("Multiply"),
        BinaryOperator::Divide => out.append("Divide"),
        BinaryOperator::Modulo => out.append("Modulo"),
        BinaryOperator::Greater => out.append("Greater"),
        BinaryOperator::GreaterEqual => out.append("GreaterEqual"),
        BinaryOperator::Less => out.append("Less"),
        BinaryOperator::LessEqual => out.append("LessEqual"),
        BinaryOperator::Equal => out.append("Equal"),
        BinaryOperator::NotEqual => out.append("NotEqual"),
        BinaryOperator::And => out.append("And"),
        BinaryOperator::Or => out.append("Or"),
    }
}

fn append_unary_name(op: UnaryOperator, out: &mut String)
    ensures
        final(out)@ == old(out)@ + unary_name(op),
{
    match op {
        UnaryOperator::Not => out.append("Not"),
        UnaryOperator::Negate => out.append("Negate"),
    }
}

pub(crate) fn append_chars(cs: &Vec<char>, out: &mut String)
    ensures
        final(out)@ == old(out)@ + cs@,
{
    let text = string_from(cs);
    out.append(text.as_str());
}

/// Appends the text of `i`.
fn encode_instruction_into(i: &Instruction, out: &mut String)
    ensures
        final(out)@ == old(out)@ + encode_instruction(instruction_view(*i)),
    decreases i, 0int,
{
    let ghost start = out@;
    match i {
        Instruction::PushInt(v) => {
            out.append("PushInt:");
            append_chars(&int_to_chars(*v), out);
        },
        Instruction::PushFloat(t) => {
            out.append("PushFloat:");
            escape_into(t.as_str(), out);
        },
        Instruction::PushBool(b) => {
            out.append("PushBool:");
            if *b {
                out.append("true");
            } else {
                out.append("false");
            }
        },
        Instruction::PushString(t) => {
            out.append("PushString:");
            escape_into(t.as_str(), out);
        },
        Instruction::LoadVariable(n) => {
            out.append("LoadVariable:");
            escape_into(n.as_str(), out);
        },
        Instruction::StoreVariable(n) => {
            out.append("StoreVariable:");
            escape_into(n.as_str(), out);
        },
        Instruction::MakeArray { length } => {
            out.append("MakeArray:");
            append_chars(&usize_to_chars(*length), out);
        },
        Instruction::Binary { op } => {
            out.append("Binary:");
            append_binary_name(*op, out);
        },
        Instruction::ShortCircuitAnd { right } => {
            out.append("And");
            encode_block_into(right, out);
        },
        Instruction::ShortCircuitOr { right } => {
            out.append("Or");
            encode_block_into(right, out);
        },
        Instruction::Unary { op } => {
            out.append("Unary:");
            append_unary_name(*op, out);
        },
        Instruction::Call { name, argument_count } => {
            out.append("Call:");
            escape_into(name.as_str(), out);
            out.append("|");
            append_chars(&usize_to_chars(*argument_count), out);
        },
        Instruction::Index => out.append("Index"),
        Instruction::StoreIndex => out.append("StoreIndex"),
        Instruction::Print => out.append("Print"),
        Instruction::Return => out.append("Return"),
        Instruction::If { then_body, else_body } => {
            out.append("If");
            encode_block_into(then_body, out);
            encode_block_into(else_body, out);
        },
        Instruction::While { condition, body } => {
            out.append("While");
            encode_block_into(condition, out);
            encode_block_into(body, out);
        },
        Instruction::For { initializer, condition, update, body } => {
            out.append("For");
            encode_block_into(initializer, out);
            encode_block_into(condition, out);
            encode_block_into(update, out);
            encode_block_into(body, out);
        },
        Instruction::Break => out.append("Break"),
        Instruction::Continue => out.append("Continue"),
    }
    proof {
        assert(out@ =~= start + encode_instruction(instruction_view(*i)));
    }
}

/// Appends the text of `is` in brackets.
fn encode_block_into(is: &Vec<Instruction>, out: &mut String)
    ensures
        final(out)@ == old(out)@ + block(encode_sequence(instructions_view(is@))),
    decreases is, 1int,
{
    let ghost start = out@;
    out.append("[");
    encode_sequence_into(is, out);
    out.append("]");
    proof {
        assert(out@ =~= start + block(encode_sequence(instructions_view(is@))));
    }
}

/// Appends the text of the sequence `is`.
fn encode_sequence_into(is: &Vec<Instruction>, out: &mut String)
    ensures
        final(out)@ == old(out)@ + encode_sequence(instructions_view(is@)),
    decreases is, 0int,
{
    let ghost start = out@;
    let ghost iv = instructions_view(is@);
    proof {
        lemma_instructions_view(is@);
    }
    let mut k: usize = 0;
    while k < is.len()
        invariant
            k <= is@.len(),
            iv == instructions_view(is@),
            iv.len() == is@.len(),
            forall|j: int| 0 <= j < is@.len() ==> #[trigger] iv[j] == instruction_view(is@[j]),
            out@ == start + encode_sequence(iv.subrange(0, k as int)),
        decreases is@.len() - k,
    {
        let ghost before = out@;
        if k > 0 {
            out.append(";");
        }
        encode_instruction_into(&is[k], out);
        proof {
            let pre = iv.subrange(0, k as int);
            let next = iv.subrange(0, k + 1);
            assert(next.drop_last() =~= pre);
            assert(next.last() == iv[k as int]);
            if k == 0 {
                assert(encode_sequence(pre) =~= seq![]);
                assert(next[0] == iv[0]);
                assert(out@ =~= start + encode_sequence(next));
            } else {
                assert(out@ =~= start + encode_sequence(next));
            }
        }
        k = k + 1;
    }
    proof {
        assert(iv.subrange(0, is@.len() as int) =~= iv);
    }
}

pub open spec fn starts_with(s: Seq<char>, p: Seq<char>) -> bool {
    p.len() <= s.len() && s.subrange(0, p.len() as int) == p
}

/// What follows the prefix `p` in `s`.
pub open spec fn after(s: Seq<char>, p: Seq<char>) -> Seq<char> {
    s.subrange(p.len() as int, s.len() as int)
}

pub open spec fn quoted(message: Seq<char>, text: Seq<char>) -> Seq<char> {
    message + " '"@ + text + "'"@
}

pub open spec fn decode_binary(v: Seq<char>) -> Result<BinaryOperator, Seq<char>> {
    if v == "Add"@ {
        Ok(BinaryOperator::Add)
    } else if v == "Subtract"@ {
        Ok(BinaryOperator::Subtract)
    } else if v == "Multiply"@ {
        Ok(BinaryOperator::Multiply)
    } else if v == "Divide"@ {
        Ok(BinaryOperator::Divide)
    } else if v == "Modulo"@ {
        Ok(BinaryOperator::Modulo)
    } else if v == "Greater"@ {
        Ok(BinaryOperator::Greater)
    } else if v == "GreaterEqual"@ {
        Ok(BinaryOperator::GreaterEqual)
    } else if v == "Less"@ {
        Ok(BinaryOperator::Less)
    } else if v == "LessEqual"@ {
        Ok(BinaryOperator::LessEqual)
    } else if v == "Equal"@ {
        Ok(BinaryOperator::Equal)
    } else if v == "NotEqual"@ {
        Ok(BinaryOperator::NotEqual)
    } else if v == "And"@ {
        Ok(BinaryOperator::And)
    } else if v == "Or"@ {
        Ok(BinaryOperator::Or)
    } else {
        Err(quoted("unknown binary operator"@, v))
    }
}

pub open spec fn decode_unary(v: Seq<char>) -> Result<UnaryOperator, Seq<char>> {
    if v == "Not"@ {
        Ok(UnaryOperator::Not)
    } else if v == "Negate"@ {
        Ok(UnaryOperator::Negate)
    } else {
        Err(quoted("unknown unary operator"@, v))
    }
}

/// The contents of `n` bracketed blocks read one after the other from `s`.
pub open spec fn read_blocks(s: Seq<char>, n: nat) -> Result<Seq<Seq<char>>, Seq<char>>
    decreases n,
{
    if n == 0 {
        Ok(seq![])
    } else {
        match extract_bracketed(s) {
            Err(e) => Err(e),
            Ok((a, b)) => match read_blocks(s.subrange(b + 1, s.len() as int), (n - 1) as nat) {
                Err(e) => Err(e),
                Ok(rest) => Ok(seq![s.subrange(a, b)] + rest),
            },
        }
    }
}

pub proof fn lemma_read_blocks(s: Seq<char>, n: nat)
    ensures
        read_blocks(s, n) matches Ok(bs) ==> bs.len() == n && forall|k: int|
            0 <= k < n ==> #[trigger] bs[k].len() < s.len(),
    decreases n,
{
    if n > 0 {
        lemma_extract_bounds(s);
        match extract_bracketed(s) {
            Err(_) => {},
            Ok((a, b)) => {
                let rest = s.subrange(b + 1, s.len() as int);
                lemma_read_blocks(rest, (n - 1) as nat);
                match read_blocks(rest, (n - 1) as nat) {
                    Err(_) => {},
                    Ok(more) => {
                        let bs = seq![s.subrange(a, b)] + more;
                        assert forall|k: int| 0 <= k < n implies #[trigger] bs[k].len() < s.len() by {
                            if k > 0 {
                                assert(bs[k] == more[k - 1]);
                            }
                        }
                    },
                }
            },
        }
    }
}

/// The instruction with nested code that the prefix `prefix` names, built
/// from the decoded blocks that follow it.
pub open spec fn assemble(
    prefix: Seq<char>,
    c0: Seq<InstructionView>,
    c1: Seq<InstructionView>,
    c2: Seq<InstructionView>,
    c3: Seq<InstructionView>,
) -> InstructionView {
    if prefix == "If"@ {
        InstructionView::If { then_body: c0, else_body: c1 }
    } else if prefix == "While"@ {
        InstructionView::While { condition: c0, body: c1 }
    } else if prefix == "And"@ {
        InstructionView::ShortCircuitAnd { right: c0 }
    } else if prefix == "Or"@ {
        InstructionView::ShortCircuitOr { right: c0 }
    } else {
        InstructionView::For { initializer: c0, condition: c1, update: c2, body: c3 }
    }
}

/// The instructions of the text `raw`: its pieces at top-level `;`, empty
/// pieces skipped.
pub open spec fn decode_sequence(raw: Seq<char>) -> Result<Seq<InstructionView>, Seq<char>>
    decreases raw.len(), 2int, 0int,
{
    if raw.len() == 0 {
        Ok(seq![])
    } else {
        decode_parts(raw, 0)
    }
}

/// The instructions of the pieces of `raw` from the `k`-th on.
pub open spec fn decode_parts(raw: Seq<char>, k: int) -> Result<Seq<InstructionView>, Seq<char>>
    decreases raw.len(), 1int, split_escaped(raw, ';').len() - k,
{
    let parts = split_escaped(raw, ';');
    if k < 0 || k >= parts.len() {
        Ok(seq![])
    } else if parts[k].len() == 0 {
        decode_parts(raw, k + 1)
    } else {
        proof {
            lemma_split_escaped_len(raw, ';');
        }
        match decode_instruction(parts[k]) {
            Err(e) => Err(e),
            Ok(i) => match decode_parts(raw, k + 1) {
                Err(e) => Err(e),
                Ok(rest) => Ok(seq![i] + rest),
            },
        }
    }
}

/// The instruction that `token` encodes.
pub open spec fn decode_instruction(token: Seq<char>) -> Result<InstructionView, Seq<char>>
    decreases token.len(), 0int, 0int,
{
    if token == "Print"@ {
        Ok(InstructionView::Print)
    } else if token == "Return"@ {
        Ok(InstructionView::Return)
    } else if token == "Index"@ {
        Ok(InstructionView::Index)
    } else if token == "StoreIndex"@ {
        Ok(InstructionView::StoreIndex)
    } else if token == "Break"@ {
        Ok(InstructionView::Break)
    } else if token == "Continue"@ {
        Ok(InstructionView::Continue)
    } else if starts_with(token, "PushInt:"@) {
        let v = after(token, "PushInt:"@);
        match i64_value(v) {
            Some(x) => Ok(InstructionView::PushInt(x)),
            None => Err(quoted("invalid integer literal"@, v)),
        }
    } else if starts_with(token, "PushFloat:"@) {
        Ok(InstructionView::PushFloat(unescape(after(token, "PushFloat:"@))))
    } else if starts_with(token, "PushBool:"@) {
        let v = after(token, "PushBool:"@);
        if v == "true"@ {
            Ok(InstructionView::PushBool(true))
        } else if v == "false"@ {
            Ok(InstructionView::PushBool(false))
        } else {
            Err(quoted("invalid boolean literal"@, v))
        }
    } else if starts_with(token, "PushString:"@) {
        Ok(InstructionView::PushString(unescape(after(token, "PushString:"@))))
    } else if starts_with(token, "LoadVariable:"@) {
        Ok(InstructionView::LoadVariable(unescape(after(token, "LoadVariable:"@))))
    } else if starts_with(token, "StoreVariable:"@) {
        Ok(InstructionView::StoreVariable(unescape(after(token, "StoreVariable:"@))))
    } else if starts_with(token, "MakeArray:"@) {
        let v = after(token, "MakeArray:"@);
        match usize_value(v) {
            Some(n) => Ok(InstructionView::MakeArray { length: n }),
            None => Err(quoted("invalid array length"@, v)),
        }
    } else if starts_with(token, "Binary:"@) {
        match decode_binary(after(token, "Binary:"@)) {
            Ok(op) => Ok(InstructionView::Binary { op }),
            Err(e) => Err(e),
        }
    } else if starts_with(token, "Unary:"@) {
        match decode_unary(after(token, "Unary:"@)) {
            Ok(op) => Ok(InstructionView::Unary { op }),
            Err(e) => Err(e),
        }
    } else if starts_with(token, "Call:"@) {
        let parts = split_escaped(after(token, "Call:"@), '|');
        if parts.len() != 2 {
            Err(quoted("invalid call encoding"@, token))
        } else {
            match usize_value(parts[1]) {
                Some(n) => Ok(InstructionView::Call { name: unescape(parts[0]), argument_count: n }),
                None => Err(quoted("invalid call arity"@, token)),
            }
        }
    } else {
        let (prefix, n): (Seq<char>, nat) = if starts_with(token, "If"@) {
            ("If"@, 2)
        } else if starts_with(token, "While"@) {
            ("While"@, 2)
        } else if starts_with(token, "And"@) {
            ("And"@, 1)
        } else if starts_with(token, "Or"@) {
            ("Or"@, 1)
        } else if starts_with(token, "For"@) {
            ("For"@, 4)
        } else {
            (seq![], 0)
        };
        if n == 0 {
            Err(quoted("unknown serialized instruction"@, token))
        } else {
            let raw = after(token, prefix);
            match read_blocks(raw, n) {
                Err(e) => Err(e),
                Ok(bs) => {
                    proof {
                        lemma_read_blocks(raw, n);
                    }
                    let d0 = decode_sequence(bs[0]);
                    let d1 = if n >= 2 {
                        decode_sequence(bs[1])
                    } else {
                        Ok(seq![])
                    };
                    let d2 = if n >= 4 {
                        decode_sequence(bs[2])
                    } else {
                        Ok(seq![])
                    };
                    let d3 = if n >= 4 {
                        decode_sequence(bs[3])
                    } else {
                        Ok(seq![])
                    };
                    match d0 {
                        Err(e) => Err(e),
                        Ok(c0) => match d1 {
                            Err(e) => Err(e),
                            Ok(c1) => match d2 {
                                Err(e) => Err(e),
                                Ok(c2) => match d3 {
                                    Err(e) => Err(e),
                                    Ok(c3) => Ok(assemble(prefix, c0, c1, c2, c3)),
                                },
                            },
                        },
                    }
                },
            }
        }
    }
}

pub(crate) fn has_prefix(s: &Vec<char>, p: &str) -> (r: bool)
    ensures
        r == starts_with(s@, p@),
{
    let pc = chars_of(p);
    if pc.len() > s.len() {
        return false;
    }
    let mut i: usize = 0;
    while i < pc.len()
        invariant
            i <= pc@.len(),
            pc@.len() <= s@.len(),
            pc@ == p@,
            forall|j: int| 0 <= j < i ==> #[trigger] s@[j] == pc@[j],
        decreases pc@.len() - i,
    {
        if s[i] != pc[i] {
            proof {
                assert(s@.subrange(0, pc@.len() as int)[i as int] != pc@[i as int]);
            }
            return false;
        }
        i = i + 1;
    }
    proof {
        assert(s@.subrange(0, pc@.len() as int) =~= pc@);
    }
    true
}

pub(crate) fn is_text(s: &Vec<char>, p: &str) -> (r: bool)
    ensures
        r == (s@ == p@),
{
    let n = chars_of(p).len();
    if s.len() != n {
        return false;
    }
    let same = has_prefix(s, p);
    proof {
        assert(s@.subrange(0, s@.len() as int) =~= s@);
    }
    same
}

pub(crate) fn slice_chars(s: &Vec<char>, a: usize, b: usize) -> (r: Vec<char>)
    requires
        a <= b <= s@.len(),
    ensures
        r@ == s@.subrange(a as int, b as int),
{
    let mut out: Vec<char> = Vec::new();
    let mut i: usize = a;
    while i < b
        invariant
            a <= i <= b,
            b <= s@.len(),
            out@ == s@.subrange(a as int, i as int),
        decreases b - i,
    {
        out.push(s[i]);
        proof {
            assert(s@.subrange(a as int, i + 1) =~= s@.subrange(a as int, i as int).push(s@[i as int]));
        }
        i = i + 1;
    }
    out
}

fn rest_after(s: &Vec<char>, p: &str) -> (r: Vec<char>)
    requires
        starts_with(s@, p@),
    ensures
        r@ == after(s@, p@),
{
    let n = chars_of(p).len();
    slice_chars(s, n, s.len())
}

fn quote(message: &str, text: &Vec<char>) -> (r: String)
    ensures
        r@ == quoted(message@, text@),
{
    let mut m = message.to_owned();
    m.append(" '");
    append_chars(text, &mut m);
    m.append("'");
    m
}

fn decode_binary_chars(v: &Vec<char>) -> (r: Result<BinaryOperator, String>)
    ensures
        match r {
            Ok(op) => decode_binary(v@) == Ok::<BinaryOperator, Seq<char>>(op),
            Err(m) => decode_binary(v@) == Err::<BinaryOperator, Seq<char>>(m@),
        },
{
    if is_text(v, "Add") {
        Ok(BinaryOperator::Add)
    } else if is_text(v, "Subtract") {
        Ok(BinaryOperator::Subtract)
    } else if is_text(v, "Multiply") {
        Ok(BinaryOperator::Multiply)
    } else if is_text(v, "Divide") {
        Ok(BinaryOperator::Divide)
    } else if is_text(v, "Modulo") {
        Ok(BinaryOperator::Modulo)
    } else if is_text(v, "Greater") {
        Ok(BinaryOperator::Greater)
    } else if is_text(v, "GreaterEqual") {
        Ok(BinaryOperator::GreaterEqual)
    } else if is_text(v, "Less") {
        Ok(BinaryOperator::Less)
    } else if is_text(v, "LessEqual") {
        Ok(BinaryOperator::LessEqual)
    } else if is_text(v, "Equal") {
        Ok(BinaryOperator::Equal)
    } else if is_text(v, "NotEqual") {
        Ok(BinaryOperator::NotEqual)
    } else if is_text(v, "And") {
        Ok(BinaryOperator::And)
    } else if is_text(v, "Or") {
        Ok(BinaryOperator::Or)
    } else {
        Err(quote("unknown binary operator", v))
    }
}

fn decode_unary_chars(v: &Vec<char>) -> (r: Result<UnaryOperator, String>)
    ensures
        match r {
            Ok(op) => decode_unary(v@) == Ok::<UnaryOperator, Seq<char>>(op),
            Err(m) => decode_unary(v@) == Err::<UnaryOperator, Seq<char>>(m@),
        },
{
    if is_text(v, "Not") {
        Ok(UnaryOperator::Not)
    } else if is_text(v, "Negate") {
        Ok(UnaryOperator::Negate)
    } else {
        Err(quote("unknown unary operator", v))
    }
}

fn read_blocks_chars(s: &Vec<char>, n: usize) -> (r: Result<Vec<Vec<char>>, String>)
    ensures
        match r {
            Ok(bs) => read_blocks(s@, n as nat) == Ok::<Seq<Seq<char>>, Seq<char>>(
                chars_views(bs@),
            ),
            Err(m) => read_blocks(s@, n as nat) == Err::<Seq<Seq<char>>, Seq<char>>(m@),
        },
    decreases n,
{
    if n == 0 {
        let empty: Vec<Vec<char>> = Vec::new();
        proof {
            assert(chars_views(empty@) =~= seq![]);
        }
        return Ok(empty);
    }
    proof {
        lemma_extract_bounds(s@);
    }
    match extract_chars(s) {
        Err(m) => Err(m),
        Ok((a, b)) => {
            proof {
                let e = extract_bracketed(s@);
                assert(e == Ok::<(int, int), Seq<char>>((a as int, b as int)));
                assert(1 <= a <= b < s@.len());
            }
            assert(b < s.len());
            let content = slice_chars(s, a, b);
            let rest = slice_chars(s, b + 1, s.len());
            match read_blocks_chars(&rest, n - 1) {
                Err(m) => Err(m),
                Ok(more) => {
                    let mut more = more;
                    let ghost mv = chars_views(more@);
                    let mut bs: Vec<Vec<char>> = Vec::new();
                    bs.push(content);
                    bs.append(&mut more);
                    proof {
                        assert(chars_views(bs@) =~= seq![content@] + mv);
                    }
                    Ok(bs)
                },
            }
        },
    }
}

pub open spec fn decoded_view(r: Result<Vec<Instruction>, String>) -> Result<
    Seq<InstructionView>,
    Seq<char>,
> {
    match r {
        Ok(is) => Ok(instructions_view(is@)),
        Err(m) => Err(m@),
    }
}

/// `decode_sequence` on characters.
pub fn decode_sequence_chars(raw: &Vec<char>) -> (r: Result<Vec<Instruction>, String>)
    ensures
        decoded_view(r) == decode_sequence(raw@),
    decreases raw@.len(), 2int, 0int,
{
    if raw.len() == 0 {
        let empty: Vec<Instruction> = Vec::new();
        proof {
            assert(instructions_view(empty@) =~= seq![]);
        }
        return Ok(empty);
    }
    let parts = split_chars(raw, ';');
    let ghost pv = chars_views(parts@);
    proof {
        lemma_split_escaped_len(raw@, ';');
    }
    let mut out: Vec<Instruction> = Vec::new();
    proof {
        assert(instructions_view(out@) =~= seq![]);
        assert(instructions_view(out@) + seq![] =~= seq![]);
        match decode_parts(raw@, 0) {
            Ok(rest) => {
                assert(instructions_view(out@) + rest =~= rest);
            },
            Err(_) => {},
        }
    }
    let mut k: usize = 0;
    while k < parts.len()
        invariant
            k <= parts@.len(),
            raw@.len() > 0,
            pv == chars_views(parts@),
            pv == split_escaped(raw@, ';'),
            forall|j: int| 0 <= j < pv.len() ==> #[trigger] pv[j].len() <= raw@.len(),
            decode_parts(raw@, 0) == match decode_parts(raw@, k as int) {
                Ok(rest) => Ok(instructions_view(out@) + rest),
                Err(e) => Err(e),
            },
        decreases parts@.len() - k,
    {
        let part = &parts[k];
        proof {
            assert(pv[k as int] == part@);
        }
        if part.len() > 0 {
            match decode_instruction_chars(part) {
                Err(m) => {
                    return Err(m);
                },
                Ok(i) => {
                    let ghost before = out@;
                    out.push(i);
                    proof {
                        lemma_instructions_view_push(before, i);
                        match decode_parts(raw@, k + 1) {
                            Ok(rest) => {
                                assert(instructions_view(before) + (seq![instruction_view(i)]
                                    + rest) =~= instructions_view(out@) + rest);
                            },
                            Err(_) => {},
                        }
                    }
                },
            }
        }
        k = k + 1;
    }
    proof {
        assert(instructions_view(out@) + seq![] =~= instructions_view(out@));
    }
    Ok(out)
}

/// `decode_instruction` on characters.
pub fn decode_instruction_chars(token: &Vec<char>) -> (r: Result<Instruction, String>)
    ensures
        match r {
            Ok(i) => decode_instruction(token@) == Ok::<InstructionView, Seq<char>>(
                instruction_view(i),
            ),
            Err(m) => decode_instruction(token@) == Err::<InstructionView, Seq<char>>(m@),
        },
    decreases token@.len(), 0int, 0int,
{
    if is_text(token, "Print") {
        return Ok(Instruction::Print);
    }
    if is_text(token, "Return") {
        return Ok(Instruction::Return);
    }
    if is_text(token, "Index") {
        return Ok(Instruction::Index);
    }
    if is_text(token, "StoreIndex") {
        return Ok(Instruction::StoreIndex);
    }
    if is_text(token, "Break") {
        return Ok(Instruction::Break);
    }
    if is_text(token, "Continue") {
        return Ok(Instruction::Continue);
    }
    if has_prefix(token, "PushInt:") {
        let v = rest_after(token, "PushInt:");
        return match parse_i64(&v) {
            Some(x) => Ok(Instruction::PushInt(x)),
            None => Err(quote("invalid integer literal", &v)),
        };
    }
    if has_prefix(token, "PushFloat:") {
        let v = rest_after(token, "PushFloat:");
        return Ok(Instruction::PushFloat(unescape_chars(&v)));
    }
    if has_prefix(token, "PushBool:") {
        let v = rest_after(token, "PushBool:");
        return if is_text(&v, "true") {
            Ok(Instruction::PushBool(true))
        } else if is_text(&v, "false") {
            Ok(Instruction::PushBool(false))
        } else {
            Err(quote("invalid boolean literal", &v))
        };
    }
    if has_prefix(token, "PushString:") {
        let v = rest_after(token, "PushString:");
        return Ok(Instruction::PushString(unescape_chars(&v)));
    }
    if has_prefix(token, "LoadVariable:") {
        let v = rest_after(token, "LoadVariable:");
        return Ok(Instruction::LoadVariable(unescape_chars(&v)));
    }
    if has_prefix(token, "StoreVariable:") {
        let v = rest_after(token, "StoreVariable:");
        return Ok(Instruction::StoreVariable(unescape_chars(&v)));
    }
    if has_prefix(token, "MakeArray:") {
        let v = rest_after(token, "MakeArray:");
        return match parse_usize(&v) {
            Some(n) => Ok(Instruction::MakeArray { length: n }),
            None => Err(quote("invalid array length", &v)),
        };
    }
    if has_prefix(token, "Binary:") {
        let v = rest_after(token, "Binary:");
        return match decode_binary_chars(&v) {
            Ok(op) => Ok(Instruction::Binary { op }),
            Err(m) => Err(m),
        };
    }
    if has_prefix(token, "Unary:") {
        let v = rest_after(token, "Unary:");
        return match decode_unary_chars(&v) {
            Ok(op) => Ok(Instruction::Unary { op }),
            Err(m) => Err(m),
        };
    }
    if has_prefix(token, "Call:") {
        let v = rest_after(token, "Call:");
        let parts = split_chars(&v, '|');
        if parts.len() != 2 {
            return Err(quote("invalid call encoding", token));
        }
        return match parse_usize(&parts[1]) {
            Some(n) => Ok(Instruction::Call { name: unescape_chars(&parts[0]), argument_count: n }),
            None => Err(quote("invalid call arity", token)),
        };
    }
    let (prefix, n): (&str, usize) = if has_prefix(token, "If") {
        ("If", 2)
    } else if has_prefix(token, "While") {
        ("While", 2)
    } else if has_prefix(token, "And") {
        ("And", 1)
    } else if has_prefix(token, "Or") {
        ("Or", 1)
    } else if has_prefix(token, "For") {
        ("For", 4)
    } else {
        return Err(quote("unknown serialized instruction", token));
    };
    let raw = rest_after(token, prefix);
    let bs = match read_blocks_chars(&raw, n) {
        Err(m) => {
            return Err(m);
        },
        Ok(bs) => bs,
    };
    proof {
        lemma_read_blocks(raw@, n as nat);
        assert(chars_views(bs@)[0] == bs@[0]@);
    }
    let c0 = match decode_sequence_chars(&bs[0]) {
        Err(m) => {
            return Err(m);
        },
        Ok(c) => c,
    };
    let c1 = if n >= 2 {
        proof {
            assert(chars_views(bs@)[1] == bs@[1]@);
        }
        match decode_sequence_chars(&bs[1]) {
            Err(m) => {
                return Err(m);
            },
            Ok(c) => c,
        }
    } else {
        Vec::new()
    };
    let c2 = if n >= 4 {
        proof {
            assert(chars_views(bs@)[2] == bs@[2]@);
        }
        match decode_sequence_chars(&bs[2]) {
            Err(m) => {
                return Err(m);
            },
            Ok(c) => c,
        }
    } else {
        Vec::new()
    };
    let c3 = if n >= 4 {
        proof {
            assert(chars_views(bs@)[3] == bs@[3]@);
        }
        match decode_sequence_chars(&bs[3]) {
            Err(m) => {
                return Err(m);
            },
            Ok(c) => c,
        }
    } else {
        Vec::new()
    };
    proof {
        assert(instructions_view(Seq::<Instruction>::empty()) =~= Seq::<InstructionView>::empty());
    }
    if n == 2 && is_text(&chars_of(prefix), "If") {
        Ok(Instruction::If { then_body: c0, else_body: c1 })
    } else if n == 2 {
        Ok(Instruction::While { condition: c0, body: c1 })
    } else if n == 1 && is_text(&chars_of(prefix), "And") {
        Ok(Instruction::ShortCircuitAnd { right: c0 })
    } else if n == 1 {
        Ok(Instruction::ShortCircuitOr { right: c0 })
    } else {
        Ok(Instruction::For { initializer: c0, condition: c1, update: c2, body: c3 })
    }
}

pub open spec fn header() -> Seq<char> {
    "AXIOM_ARTIFACT_V1"@
}

pub open spec fn parameter_lines(ps: Seq<Seq<char>>) -> Seq<Seq<char>> {
    ps.map_values(|p: Seq<char>| "PARAM:"@ + escape(p))
}

/// The lines of one function: its name, the number of its parameters, one
/// line per parameter, and its code.
pub open spec fn function_lines(f: CompiledFunctionView) -> Seq<Seq<char>> {
    seq!["FUNCTION:"@ + escape(f.name), "PARAMS:"@ + decimal(f.parameters.len())]
        + parameter_lines(f.parameters) + seq!["INSTR:"@ + encode_sequence(f.instructions)]
}

/// The lines of an artifact: the header, then the lines of each function.
pub open spec fn artifact_lines(fs: Seq<CompiledFunctionView>) -> Seq<Seq<char>>
    decreases fs.len(),
{
    if fs.len() == 0 {
        seq![header()]
    } else {
        artifact_lines(fs.drop_last()) + function_lines(fs.last())
    }
}

/// The lines joined by `\n`, with no newline after the last.
pub open spec fn join_lines(lines: Seq<Seq<char>>) -> Seq<char>
    decreases lines.len(),
{
    if lines.len() == 0 {
        seq![]
    } else if lines.len() == 1 {
        lines[0]
    } else {
        join_lines(lines.drop_last()) + "\n"@ + lines.last()
    }
}

/// The text of an artifact.
pub open spec fn serialize_text(fs: Seq<CompiledFunctionView>) -> Seq<char> {
    join_lines(artifact_lines(fs))
}

proof fn lemma_join_push(lines: Seq<Seq<char>>, line: Seq<char>)
    requires
        lines.len() >= 1,
    ensures
        join_lines(lines.push(line)) == join_lines(lines) + "\n"@ + line,
{
    assert(lines.push(line).drop_last() =~= lines);
}

/// The parameters that the lines from `at` on give, `count` of them, for the
/// function `name`.
pub open spec fn read_params(lines: Seq<Seq<char>>, at: int, count: nat, name: Seq<char>) -> Result<
    Seq<Seq<char>>,
    Seq<char>,
>
    decreases count,
{
    if count == 0 {
        Ok(seq![])
    } else if at < 0 || at >= lines.len() {
        Err(quoted("missing parameter for"@, name))
    } else if !starts_with(lines[at], "PARAM:"@) {
        Err(quoted("invalid parameter entry for"@, name))
    } else {
        match read_params(lines, at + 1, (count - 1) as nat, name) {
            Err(e) => Err(e),
            Ok(rest) => Ok(seq![unescape(after(lines[at], "PARAM:"@))] + rest),
        }
    }
}

/// The functions that the lines from `i` on describe; lines outside a
/// function record are skipped.
pub open spec fn read_functions(lines: Seq<Seq<char>>, i: int) -> Result<
    Seq<CompiledFunctionView>,
    Seq<char>,
>
    decreases lines.len() - i,
{
    if i < 0 || i >= lines.len() {
        Ok(seq![])
    } else if !starts_with(lines[i], "FUNCTION:"@) {
        read_functions(lines, i + 1)
    } else {
        let name = unescape(after(lines[i], "FUNCTION:"@));
        if i + 1 >= lines.len() {
            Err(quoted("missing parameter count for"@, name))
        } else if !starts_with(lines[i + 1], "PARAMS:"@) {
            Err(quoted("invalid parameter count for"@, name))
        } else {
            match usize_value(after(lines[i + 1], "PARAMS:"@)) {
                None => Err(quoted("invalid parameter count for"@, name)),
                Some(count) => match read_params(lines, i + 2, count as nat, name) {
                    Err(e) => Err(e),
                    Ok(params) => {
                        let j = i + 2 + count;
                        if j >= lines.len() {
                            Err(quoted("missing instructions for"@, name))
                        } else if !starts_with(lines[j], "INSTR:"@) {
                            Err(quoted("invalid instruction entry for"@, name))
                        } else {
                            match decode_sequence(after(lines[j], "INSTR:"@)) {
                                Err(e) => Err(e),
                                Ok(code) => match read_functions(lines, j + 1) {
                                    Err(e) => Err(e),
                                    Ok(fs) => Ok(
                                        seq![
                                            CompiledFunctionView {
                                                name,
                                                parameters: params,
                                                instructions: code,
                                            },
                                        ] + fs,
                                    ),
                                },
                            }
                        }
                    },
                },
            }
        }
    }
}

/// The functions that the text of an artifact describes.
pub open spec fn deserialize_text(input: Seq<char>) -> Result<Seq<CompiledFunctionView>, Seq<char>> {
    let lines = text_lines(input);
    if lines.len() == 0 {
        Err("missing artifact header"@)
    } else if lines[0] != header() {
        Err("unsupported artifact format"@)
    } else {
        read_functions(lines, 1)
    }
}

fn append_line_start(out: &mut String, tag: &str)
    ensures
        final(out)@ == old(out)@ + "\n"@ + tag@,
{
    out.append("\n");
    out.append(tag);
}

impl Artifact {
    /// The text of the artifact.
    #[verifier::spinoff_prover]
    #[verifier::rlimit(40)]
    pub fn serialize(&self) -> (r: String)
        ensures
            r@ == serialize_text(self@),
    {
        let ghost fs = self@;
        let mut out = "AXIOM_ARTIFACT_V1".to_owned();
        let ghost mut lines: Seq<Seq<char>> = seq![header()];
        proof {
            assert(fs.subrange(0, 0) =~= Seq::<CompiledFunctionView>::empty());
        }
        let mut k: usize = 0;
        while k < self.functions.len()
            invariant
                k <= self.functions@.len(),
                fs == self@,
                fs.len() == self.functions@.len(),
                lines.len() >= 1,
                lines == artifact_lines(fs.subrange(0, k as int)),
                out@ == join_lines(lines),
            decreases self.functions@.len() - k,
        {
            let f = &self.functions[k];
            let ghost fv = compiled_function_view(*f);
            proof {
                assert(fv == fs[k as int]);
            }
            let ghost l0 = "FUNCTION:"@ + escape(f.name@);
            append_line_start(&mut out, "FUNCTION:");
            escape_into(f.name.as_str(), &mut out);
            proof {
                lemma_join_push(lines, l0);
                lines = lines.push(l0);
            }
            let ghost l1 = "PARAMS:"@ + decimal(f.parameters@.len());
            append_line_start(&mut out, "PARAMS:");
            append_chars(&usize_to_chars(f.parameters.len()), &mut out);
            proof {
                lemma_join_push(lines, l1);
                lines = lines.push(l1);
                assert(strings_view(f.parameters@).len() == f.parameters@.len());
            }
            let ghost base = lines;
            let mut j: usize = 0;
            while j < f.parameters.len()
                invariant
                    j <= f.parameters@.len(),
                    fv == compiled_function_view(*f),
                    lines.len() >= 1,
                    lines == base + parameter_lines(fv.parameters.subrange(0, j as int)),
                    out@ == join_lines(lines),
                decreases f.parameters@.len() - j,
            {
                let ghost lp = "PARAM:"@ + escape(f.parameters@[j as int]@);
                append_line_start(&mut out, "PARAM:");
                escape_into(f.parameters[j].as_str(), &mut out);
                proof {
                    lemma_join_push(lines, lp);
                    lines = lines.push(lp);
                    assert(fv.parameters[j as int] == f.parameters@[j as int]@);
                    assert(parameter_lines(fv.parameters.subrange(0, j + 1)) =~= parameter_lines(
                        fv.parameters.subrange(0, j as int),
                    ).push(lp));
                }
                j = j + 1;
            }
            let ghost l3 = "INSTR:"@ + encode_sequence(fv.instructions);
            append_line_start(&mut out, "INSTR:");
            encode_sequence_into(&f.instructions, &mut out);
            proof {
                lemma_join_push(lines, l3);
                lines = lines.push(l3);
                assert(fv.parameters.subrange(0, fv.parameters.len() as int) =~= fv.parameters);
                assert(fs.subrange(0, k + 1).drop_last() =~= fs.subrange(0, k as int));
                assert(lines =~= artifact_lines(fs.subrange(0, k + 1)));
            }
            k = k + 1;
        }
        proof {
            assert(fs.subrange(0, fs.len() as int) =~= fs);
        }
        out
    }
}

pub open spec fn artifact_result_view(r: Result<Artifact, VmError>) -> Result<
    Seq<CompiledFunctionView>,
    Seq<char>,
> {
    match r {
        Ok(a) => Ok(a@),
        Err(e) => Err(e.message@),
    }
}

fn fail(message: String) -> (r: Result<Artifact, VmError>)
    ensures
        artifact_result_view(r) == Err::<Seq<CompiledFunctionView>, Seq<char>>(message@),
{
    Err(VmError { message })
}

impl Artifact {
    /// Reads an artifact from its text.
    pub fn deserialize(input: &str) -> (r: Result<Artifact, VmError>)
        ensures
            artifact_result_view(r) == deserialize_text(input@),
    {
        let cs = chars_of(input);
        let lines = lines_of(&cs);
        let ghost lv = chars_views(lines@);
        if lines.len() == 0 {
            return fail("missing artifact header".to_owned());
        }
        proof {
            assert(lv[0] == lines@[0]@);
        }
        if !is_text(&lines[0], "AXIOM_ARTIFACT_V1") {
            return fail("unsupported artifact format".to_owned());
        }
        let mut functions: Vec<CompiledFunction> = Vec::new();
        let mut i: usize = 1;
        proof {
            assert(crate::vm::compiled_functions_view(functions@) =~= seq![]);
            match read_functions(lv, 1) {
                Ok(fs) => {
                    assert(crate::vm::compiled_functions_view(functions@) + fs =~= fs);
                },
                Err(_) => {},
            }
        }
        while i < lines.len()
            invariant
                1 <= i,
                lv == chars_views(lines@),
                lv == text_lines(input@),
                deserialize_text(input@) == read_functions(lv, 1),
                read_functions(lv, 1) == match read_functions(lv, i as int) {
                    Ok(fs) => Ok(crate::vm::compiled_functions_view(functions@) + fs),
                    Err(e) => Err(e),
                },
            decreases lines@.len() - i,
        {
            let line = &lines[i];
            proof {
                assert(lv[i as int] == line@);
            }
            if !has_prefix(line, "FUNCTION:") {
                i = i + 1;
                continue;
            }
            let name_chars = rest_after(line, "FUNCTION:");
            let name = unescape_chars(&name_chars);
            if i + 1 >= lines.len() {
                return fail(quote("missing parameter count for", &name_chars_of(&name)));
            }
            proof {
                assert(lv[i + 1] == lines@[i + 1]@);
            }
            if !has_prefix(&lines[i + 1], "PARAMS:") {
                return fail(quote("invalid parameter count for", &name_chars_of(&name)));
            }
            let count = match parse_usize(&rest_after(&lines[i + 1], "PARAMS:")) {
                None => {
                    return fail(quote("invalid parameter count for", &name_chars_of(&name)));
                },
                Some(c) => c,
            };
            let ghost nv = name@;
            let mut parameters: Vec<String> = Vec::new();
            let mut j: usize = 0;
            proof {
                assert(strings_view(parameters@) =~= seq![]);
                match read_params(lv, i + 2, count as nat, nv) {
                    Ok(ps) => {
                        assert(strings_view(parameters@) + ps =~= ps);
                    },
                    Err(_) => {},
                }
            }
            while j < count
                invariant
                    j <= count,
                    1 <= i < lines@.len(),
                    i + 2 + j <= lines@.len(),
                    lv == chars_views(lines@),
                    nv == name@,
                    deserialize_text(input@) == read_functions(lv, 1),
                    read_functions(lv, 1) == match read_functions(lv, i as int) {
                        Ok(fs) => Ok(crate::vm::compiled_functions_view(functions@) + fs),
                        Err(e) => Err(e),
                    },
                    starts_with(lv[i as int], "FUNCTION:"@),
                    nv == unescape(after(lv[i as int], "FUNCTION:"@)),
                    starts_with(lv[i + 1], "PARAMS:"@),
                    usize_value(after(lv[i + 1], "PARAMS:"@)) == Some(count),
                    read_params(lv, i + 2, count as nat, nv) == match read_params(
                        lv,
                        i + 2 + j,
                        (count - j) as nat,
                        nv,
                    ) {
                        Ok(ps) => Ok(strings_view(parameters@) + ps),
                        Err(e) => Err(e),
                    },
                decreases count - j,
            {
                if j >= lines.len() - i - 2 {
                    return fail(quote("missing parameter for", &name_chars_of(&name)));
                }
                let at = i + 2 + j;
                proof {
                    assert(lv[at as int] == lines@[at as int]@);
                }
                if !has_prefix(&lines[at], "PARAM:") {
                    return fail(quote("invalid parameter entry for", &name_chars_of(&name)));
                }
                let p = unescape_chars(&rest_after(&lines[at], "PARAM:"));
                let ghost before = parameters@;
                parameters.push(p);
                proof {
                    assert(strings_view(parameters@) =~= strings_view(before).push(p@));
                    match read_params(lv, at + 1, (count - j - 1) as nat, nv) {
                        Ok(ps) => {
                            assert(strings_view(before) + (seq![p@] + ps) =~= strings_view(
                                parameters@,
                            ) + ps);
                        },
                        Err(_) => {},
                    }
                }
                j = j + 1;
            }
            proof {
                assert(read_params(lv, i + 2 + count, 0, nv) == Ok::<Seq<Seq<char>>, Seq<char>>(
                    seq![],
                ));
                assert(strings_view(parameters@) + seq![] =~= strings_view(parameters@));
            }
            let at = i + 2 + count;
            if at >= lines.len() {
                return fail(quote("missing instructions for", &name_chars_of(&name)));
            }
            proof {
                assert(lv[at as int] == lines@[at as int]@);
            }
            if !has_prefix(&lines[at], "INSTR:") {
                return fail(quote("invalid instruction entry for", &name_chars_of(&name)));
            }
            let code = match decode_sequence_chars(&rest_after(&lines[at], "INSTR:")) {
                Err(m) => {
                    return fail(m);
                },
                Ok(code) => code,
            };
            let f = CompiledFunction { name, parameters, instructions: code };
            let ghost before = functions@;
            functions.push(f);
            proof {
                assert(crate::vm::compiled_functions_view(functions@) =~= crate::vm::compiled_functions_view(
                    before,
                ).push(compiled_function_view(f)));
                match read_functions(lv, at + 1) {
                    Ok(fs) => {
                        assert(crate::vm::compiled_functions_view(before) + (seq![
                            compiled_function_view(f),
                        ] + fs) =~= crate::vm::compiled_functions_view(functions@) + fs);
                    },
                    Err(_) => {},
                }
            }
            i = at + 1;
        }
        proof {
            assert(crate::vm::compiled_functions_view(functions@) + seq![]
                =~= crate::vm::compiled_functions_view(functions@));
        }
        Ok(Artifact { functions })
    }
}

fn name_chars_of(name: &String) -> (r: Vec<char>)
    ensures
        r@ == name@,
{
    chars_of(name.as_str())
}
} // verus!
