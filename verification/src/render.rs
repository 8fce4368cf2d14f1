//! Serialization of a resolved tree back to base-dialect text.
//!
//! Rendering is a pure tree walk: every value node becomes one output
//! line, a composite node renders its children one nesting level
//! deeper, and every line is closed with the configured line
//! terminator.  In pretty mode each line is prefixed with one copy of
//! the indent string per nesting level; compact mode emits no
//! indentation.  A string value is quoted if and only if it contains a
//! space character — a compatibility requirement of the base dialect's
//! tokenizer, not a style choice.

use vstd::prelude::*;
use vstd::string::{StringExecFns, StrSliceExecFns};
use crate::value::{ExpressionValue, ScalarValue, ScalarM, ValueM};
use crate::arena::{arena_wf, node_wf, NodeM, TransformedArena, TransformedNode};

verus! {

/// Formatting configuration for one render pass.
pub struct RenderConfig {
    /// Emit indentation, or compact output with no leading whitespace.
    pub pretty: bool,
    /// One copy of this string per nesting level in pretty mode.
    pub indent_str: String,
    /// Directory against which file-relative includes would be
    /// resolved; locating and loading such files is an external
    /// collaborator's concern.
    pub base_path: String,
    /// The literal byte sequence closing each line, selectable
    /// independent of the host platform.
    pub line_ending: String,
    /// Whether source comments attached to nodes are re-emitted; the
    /// resolved representation here carries no comment nodes.
    pub comments: bool,
}

/// Mathematical model of the formatting configuration.
pub struct ConfigM {
    pub pretty: bool,
    pub indent: Seq<char>,
    pub line_ending: Seq<char>,
    pub comments: bool,
}

impl View for RenderConfig {
    type V = ConfigM;

    open spec fn view(&self) -> ConfigM {
        ConfigM {
            pretty: self.pretty,
            indent: self.indent_str@,
            line_ending: self.line_ending@,
            comments: self.comments,
        }
    }
}

/// The decimal digit character for `d`.
pub open spec fn digit_char(d: nat) -> char {
    if d == 0 { '0' }
    else if d == 1 { '1' }
    else if d == 2 { '2' }
    else if d == 3 { '3' }
    else if d == 4 { '4' }
    else if d == 5 { '5' }
    else if d == 6 { '6' }
    else if d == 7 { '7' }
    else if d == 8 { '8' }
    else { '9' }
}

/// The decimal digits of a natural number, most significant first.
pub open spec fn spec_dec_nat(n: nat) -> Seq<char>
    decreases n,
{
    if n < 10 {
        seq![digit_char(n)]
    } else {
        spec_dec_nat(n / 10).push(digit_char(n % 10))
    }
}

/// The decimal text of an integer: a minus sign for negatives, then
/// the digits of its magnitude.
pub open spec fn spec_dec_int(n: int) -> Seq<char> {
    if n < 0 {
        seq!['-'] + spec_dec_nat((-n) as nat)
    } else {
        spec_dec_nat(n as nat)
    }
}

/// The text of a string value: quoted if and only if it contains a
/// space character.
pub open spec fn str_text(t: Seq<char>) -> Seq<char> {
    if t.contains(' ') {
        seq!['"'] + t + seq!['"']
    } else {
        t
    }
}

/// The text of one scalar value.
pub open spec fn scalar_text(s: ScalarM) -> Seq<char> {
    match s {
        ScalarM::StrV(t) => str_text(t),
        ScalarM::NumV(n) => spec_dec_int(n),
        ScalarM::ColorV(r, g, b) => spec_dec_int(r) + seq![' '] + spec_dec_int(g) + seq![' ']
            + spec_dec_int(b),
    }
}

/// The texts of a sequence of scalars, joined by single spaces.
pub open spec fn join_space(items: Seq<ScalarM>) -> Seq<char>
    decreases items.len(),
{
    if items.len() == 0 {
        Seq::empty()
    } else if items.len() == 1 {
        scalar_text(items[0])
    } else {
        scalar_text(items[0]) + seq![' '] + join_space(items.drop_first())
    }
}

/// The single-line text of one resolved value.
pub open spec fn value_text(v: ValueM) -> Seq<char> {
    match v {
        ValueM::StrV(t) => str_text(t),
        ValueM::NumV(n) => spec_dec_int(n),
        ValueM::ColorV(r, g, b) => scalar_text(ScalarM::ColorV(r, g, b)),
        ValueM::BlockV(items) => join_space(items),
    }
}

/// `depth` copies of the indent string.
pub open spec fn spec_indent(indent: Seq<char>, depth: nat) -> Seq<char>
    decreases depth,
{
    if depth == 0 {
        Seq::empty()
    } else {
        spec_indent(indent, (depth - 1) as nat) + indent
    }
}

/// The measure used to walk a node: composites weigh one more than the
/// walk of their child list.
pub open spec fn node_measure(arena: Seq<NodeM>, id: int) -> int {
    if 0 <= id < arena.len() {
        match arena[id] {
            NodeM::ValueN(_) => 0int,
            NodeM::BlockN(cs) => cs.len() + 1int,
        }
    } else {
        0
    }
}

/// The output lines (without terminators) of the node `id`, at the
/// given nesting depth.
pub open spec fn spec_lines(
    arena: Seq<NodeM>,
    id: int,
    pretty: bool,
    indent: Seq<char>,
    depth: nat,
) -> Seq<Seq<char>>
    decreases id, node_measure(arena, id),
{
    if 0 <= id < arena.len() {
        match arena[id] {
            NodeM::ValueN(v) => seq![
                (if pretty { spec_indent(indent, depth) } else { Seq::empty() }) + value_text(v)
            ],
            NodeM::BlockN(cs) => spec_lines_seq(arena, cs, id, pretty, indent, (depth + 1) as nat),
        }
    } else {
        Seq::empty()
    }
}

/// The output lines of a list of child nodes, all of which lie below
/// `parent` in a well-formed arena.
pub open spec fn spec_lines_seq(
    arena: Seq<NodeM>,
    cs: Seq<int>,
    parent: int,
    pretty: bool,
    indent: Seq<char>,
    depth: nat,
) -> Seq<Seq<char>>
    decreases parent, cs.len(),
{
    if cs.len() == 0 {
        Seq::empty()
    } else {
        (if 0 <= cs[0] < parent {
            spec_lines(arena, cs[0], pretty, indent, depth)
        } else {
            Seq::empty()
        }) + spec_lines_seq(arena, cs.drop_first(), parent, pretty, indent, depth)
    }
}

/// Lines joined into one text: each line is closed with the line
/// terminator.
pub open spec fn join_le(lines: Seq<Seq<char>>, le: Seq<char>) -> Seq<char>
    decreases lines.len(),
{
    if lines.len() == 0 {
        Seq::empty()
    } else {
        lines[0] + le + join_le(lines.drop_first(), le)
    }
}

/// The output lines of the whole resolved tree: the root composite's
/// children stand at depth zero.
pub open spec fn spec_top_lines(
    arena: Seq<NodeM>,
    root: int,
    pretty: bool,
    indent: Seq<char>,
) -> Seq<Seq<char>> {
    if 0 <= root < arena.len() {
        match arena[root] {
            NodeM::BlockN(cs) => spec_lines_seq(arena, cs, root, pretty, indent, 0),
            NodeM::ValueN(_) => spec_lines(arena, root, pretty, indent, 0),
        }
    } else {
        Seq::empty()
    }
}

/// The full rendered text of the resolved tree under a configuration.
pub open spec fn spec_render(arena: Seq<NodeM>, root: int, cfg: ConfigM) -> Seq<char> {
    join_le(spec_top_lines(arena, root, cfg.pretty, cfg.indent), cfg.line_ending)
}

/// Joining distributes over concatenation of line lists.
pub proof fn lemma_join_concat(a: Seq<Seq<char>>, b: Seq<Seq<char>>, le: Seq<char>)
    ensures
        join_le(a + b, le) == join_le(a, le) + join_le(b, le),
    decreases a.len(),
{
    if a.len() == 0 {
        assert(a + b =~= b);
        assert(join_le(a, le) + join_le(b, le) =~= join_le(b, le));
    } else {
        assert((a + b).drop_first() =~= a.drop_first() + b);
        lemma_join_concat(a.drop_first(), b, le);
        assert(join_le(a + b, le) =~= join_le(a, le) + join_le(b, le));
    }
}

/// Appending one more child to a child list appends its lines.
proof fn lemma_lines_seq_snoc(
    arena: Seq<NodeM>,
    cs: Seq<int>,
    c: int,
    parent: int,
    pretty: bool,
    indent: Seq<char>,
    depth: nat,
)
    ensures
        spec_lines_seq(arena, cs.push(c), parent, pretty, indent, depth)
            == spec_lines_seq(arena, cs, parent, pretty, indent, depth)
                + (if 0 <= c < parent {
                    spec_lines(arena, c, pretty, indent, depth)
                } else {
                    Seq::<Seq<char>>::empty()
                }),
    decreases cs.len(),
{
    if cs.len() == 0 {
        assert(cs.push(c)[0] == c);
        assert(cs.push(c).drop_first() =~= Seq::<int>::empty());
        assert(spec_lines_seq(arena, Seq::<int>::empty(), parent, pretty, indent, depth)
            =~= Seq::<Seq<char>>::empty());
        assert(spec_lines_seq(arena, cs.push(c), parent, pretty, indent, depth)
            =~= spec_lines_seq(arena, cs, parent, pretty, indent, depth)
                + (if 0 <= c < parent {
                    spec_lines(arena, c, pretty, indent, depth)
                } else {
                    Seq::<Seq<char>>::empty()
                }));
    } else {
        assert(cs.push(c)[0] == cs[0]);
        assert(cs.push(c).drop_first() =~= cs.drop_first().push(c));
        lemma_lines_seq_snoc(arena, cs.drop_first(), c, parent, pretty, indent, depth);
        assert(spec_lines_seq(arena, cs.push(c), parent, pretty, indent, depth)
            =~= spec_lines_seq(arena, cs, parent, pretty, indent, depth)
                + (if 0 <= c < parent {
                    spec_lines(arena, c, pretty, indent, depth)
                } else {
                    Seq::<Seq<char>>::empty()
                }));
    }
}

/// Joining one more scalar onto a non-empty list appends a space and
/// its text.
proof fn lemma_join_space_snoc(items: Seq<ScalarM>, x: ScalarM)
    requires
        items.len() >= 1,
    ensures
        join_space(items.push(x)) == join_space(items) + seq![' '] + scalar_text(x),
    decreases items.len(),
{
    if items.len() == 1 {
        assert(items.push(x)[0] == items[0]);
        assert(items.push(x).drop_first() =~= seq![x]);
        assert(join_space(seq![x]) == scalar_text(x));
        assert(join_space(items.push(x)) =~= join_space(items) + seq![' '] + scalar_text(x));
    } else {
        assert(items.push(x)[0] == items[0]);
        assert(items.push(x).drop_first() =~= items.drop_first().push(x));
        lemma_join_space_snoc(items.drop_first(), x);
        assert(join_space(items.push(x)) =~= join_space(items) + seq![' '] + scalar_text(x));
    }
}

/// Whether the text contains a space character.
pub fn has_space(s: &str) -> (b: bool)
    ensures
        b == s@.contains(' '),
{
    let n = s.unicode_len();
    let mut i: usize = 0;
    while i < n
        invariant
            n == s@.len(),
            i <= n,
            forall|j: int| 0 <= j < i ==> s@[j] != ' ',
        decreases n - i,
    {
        if s.get_char(i) == ' ' {
            proof {
                assert(s@.contains(' '));
            }
            return true;
        }
        i = i + 1;
    }
    proof {
        assert forall|j: int| 0 <= j < s@.len() implies s@[j] != ' ' by {}
    }
    false
}

/// Append the text of a string value: quoted if and only if it
/// contains a space.
pub fn push_str_value(out: &mut String, s: &str)
    ensures
        final(out)@ == old(out)@ + str_text(s@),
{
    proof {
        reveal_strlit("\"");
        assert("\""@ =~= seq!['"']);
    }
    let q = has_space(s);
    if q {
        out.append("\"");
    }
    out.append(s);
    if q {
        out.append("\"");
        proof {
            assert(final(out)@ =~= old(out)@ + str_text(s@));
        }
    } else {
        proof {
            assert(final(out)@ =~= old(out)@ + str_text(s@));
        }
    }
}

/// The decimal digit string for `d`.
fn digit_str(d: u64) -> (r: &'static str)
    requires
        d < 10,
    ensures
        r@ == seq![digit_char(d as nat)],
{
    proof {
        reveal_strlit("0");
        reveal_strlit("1");
        reveal_strlit("2");
        reveal_strlit("3");
        reveal_strlit("4");
        reveal_strlit("5");
        reveal_strlit("6");
        reveal_strlit("7");
        reveal_strlit("8");
        reveal_strlit("9");
        assert("0"@ =~= seq!['0']);
        assert("1"@ =~= seq!['1']);
        assert("2"@ =~= seq!['2']);
        assert("3"@ =~= seq!['3']);
        assert("4"@ =~= seq!['4']);
        assert("5"@ =~= seq!['5']);
        assert("6"@ =~= seq!['6']);
        assert("7"@ =~= seq!['7']);
        assert("8"@ =~= seq!['8']);
        assert("9"@ =~= seq!['9']);
    }
    if d == 0 { "0" }
    else if d == 1 { "1" }
    else if d == 2 { "2" }
    else if d == 3 { "3" }
    else if d == 4 { "4" }
    else if d == 5 { "5" }
    else if d == 6 { "6" }
    else if d == 7 { "7" }
    else if d == 8 { "8" }
    else { "9" }
}

/// Append the decimal digits of an unsigned number.
fn push_dec_u64(out: &mut String, m0: u64)
    ensures
        final(out)@ == old(out)@ + spec_dec_nat(m0 as nat),
{
    let mut m: u64 = m0;
    let mut s = String::new();
    proof {
        assert(spec_dec_nat(m0 as nat) =~= spec_dec_nat(m as nat) + s@);
    }
    while m >= 10
        invariant
            spec_dec_nat(m0 as nat) == spec_dec_nat(m as nat) + s@,
        decreases m,
    {
        let d = m % 10;
        let t = String::from_str(digit_str(d));
        let s2 = t.concat(s.as_str());
        proof {
            assert(m / 10 < m) by (nonlinear_arith)
                requires m >= 10;
            assert(spec_dec_nat(m as nat) =~= spec_dec_nat((m as nat) / 10)
                + seq![digit_char((m as nat) % 10)]);
            assert(spec_dec_nat(m0 as nat) =~= spec_dec_nat(((m / 10) as u64) as nat) + s2@);
        }
        s = s2;
        m = m / 10;
    }
    let t = String::from_str(digit_str(m));
    let s2 = t.concat(s.as_str());
    out.append(s2.as_str());
    proof {
        assert(final(out)@ =~= old(out)@ + spec_dec_nat(m0 as nat));
    }
}

/// Append the decimal text of a signed number.
pub fn push_dec_i64(out: &mut String, n: i64)
    ensures
        final(out)@ == old(out)@ + spec_dec_int(n as int),
{
    if n >= 0 {
        push_dec_u64(out, n as u64);
    } else {
        proof {
            reveal_strlit("-");
            assert("-"@ =~= seq!['-']);
        }
        out.append("-");
        let mag: u64 = if n == i64::MIN {
            9223372036854775808u64
        } else {
            (-n) as u64
        };
        push_dec_u64(out, mag);
        proof {
            assert(mag as nat == (-(n as int)) as nat);
            assert(final(out)@ =~= old(out)@ + spec_dec_int(n as int));
        }
    }
}

/// Append the text of one scalar value.
pub fn push_scalar_text(out: &mut String, s: &ScalarValue)
    ensures
        final(out)@ == old(out)@ + scalar_text(s@),
{
    proof {
        reveal_strlit(" ");
        assert(" "@ =~= seq![' ']);
    }
    match s {
        ScalarValue::Str(t) => {
            push_str_value(out, t.as_str());
        },
        ScalarValue::Num(n) => {
            push_dec_i64(out, *n);
        },
        ScalarValue::Color(r, g, b) => {
            push_dec_i64(out, *r);
            out.append(" ");
            push_dec_i64(out, *g);
            out.append(" ");
            push_dec_i64(out, *b);
            proof {
                assert(final(out)@ =~= old(out)@ + scalar_text(s@));
            }
        },
    }
}

/// Append the single-line text of one resolved value.
pub fn push_value_text(out: &mut String, v: &ExpressionValue)
    ensures
        final(out)@ == old(out)@ + value_text(v@),
{
    proof {
        reveal_strlit(" ");
        assert(" "@ =~= seq![' ']);
    }
    match v {
        ExpressionValue::Str(t) => {
            push_str_value(out, t.as_str());
        },
        ExpressionValue::Num(n) => {
            push_dec_i64(out, *n);
        },
        ExpressionValue::Color(r, g, b) => {
            push_dec_i64(out, *r);
            out.append(" ");
            push_dec_i64(out, *g);
            out.append(" ");
            push_dec_i64(out, *b);
            proof {
                assert(final(out)@ =~= old(out)@ + value_text(v@));
            }
        },
        ExpressionValue::Block(items) => {
            let ghost itemsm = items@.map_values(|x: ScalarValue| x@);
            if items.len() > 0 {
                push_scalar_text(out, &items[0]);
                proof {
                    assert(itemsm.subrange(0, 1) =~= seq![itemsm[0]]);
                    assert(join_space(itemsm.subrange(0, 1)) =~= scalar_text(itemsm[0]));
                }
                let mut k: usize = 1;
                while k < items.len()
                    invariant
                        1 <= k <= items@.len(),
                        itemsm == items@.map_values(|x: ScalarValue| x@),
                        itemsm.len() == items@.len(),
                        out@ == old(out)@ + join_space(itemsm.subrange(0, k as int)),
                    decreases items@.len() - k,
                {
                    out.append(" ");
                    push_scalar_text(out, &items[k]);
                    proof {
                        reveal_strlit(" ");
                        assert(" "@ =~= seq![' ']);
                        assert(itemsm.subrange(0, k + 1 as int)
                            =~= itemsm.subrange(0, k as int).push(itemsm[k as int]));
                        lemma_join_space_snoc(itemsm.subrange(0, k as int), itemsm[k as int]);
                        assert(out@ =~= old(out)@
                            + join_space(itemsm.subrange(0, k + 1 as int)));
                    }
                    k = k + 1;
                }
                proof {
                    assert(itemsm.subrange(0, itemsm.len() as int) =~= itemsm);
                }
            } else {
                proof {
                    assert(join_space(itemsm) =~= Seq::<char>::empty());
                    assert(final(out)@ =~= old(out)@ + value_text(v@));
                }
            }
        },
    }
}

/// Append `depth` copies of the indent string.
fn push_indent(out: &mut String, indent: &String, depth: usize)
    ensures
        final(out)@ == old(out)@ + spec_indent(indent@, depth as nat),
{
    let mut i: usize = 0;
    proof {
        assert(old(out)@ + spec_indent(indent@, 0) =~= old(out)@);
    }
    while i < depth
        invariant
            i <= depth,
            out@ == old(out)@ + spec_indent(indent@, i as nat),
        decreases depth - i,
    {
        out.append(indent.as_str());
        i = i + 1;
        proof {
            assert(old(out)@ + spec_indent(indent@, (i - 1) as nat) + indent@
                =~= old(out)@ + spec_indent(indent@, i as nat));
        }
    }
}

/// Append the rendered lines of the node `id` at the given depth.
fn render_lines(
    arena: &TransformedArena,
    id: usize,
    config: &RenderConfig,
    depth: usize,
    out: &mut String,
)
    requires
        arena.wf(),
        id < arena@.len(),
        depth + id < arena@.len() + 1,
    ensures
        final(out)@ == old(out)@ + join_le(
            spec_lines(arena@, id as int, config@.pretty, config@.indent, depth as nat),
            config@.line_ending,
        ),
    decreases id, node_measure(arena@, id as int),
{
    let node = arena.get(id);
    match node {
        TransformedNode::Value(v) => {
            if config.pretty {
                push_indent(out, &config.indent_str, depth);
            }
            push_value_text(out, v);
            out.append(config.line_ending.as_str());
            proof {
                let line = (if config@.pretty {
                    spec_indent(config@.indent, depth as nat)
                } else {
                    Seq::<char>::empty()
                }) + value_text(v@);
                assert(spec_lines(arena@, id as int, config@.pretty, config@.indent, depth as nat)
                    =~= seq![line]);
                assert(seq![line].drop_first() =~= Seq::<Seq<char>>::empty());
                assert(join_le(Seq::<Seq<char>>::empty(), config@.line_ending)
                    =~= Seq::<char>::empty());
                assert(seq![line][0] == line);
                assert(join_le(seq![line], config@.line_ending)
                    =~= line + config@.line_ending);
                assert(final(out)@ =~= old(out)@ + join_le(
                    spec_lines(arena@, id as int, config@.pretty, config@.indent, depth as nat),
                    config@.line_ending,
                ));
            }
        },
        TransformedNode::Block(cs) => {
            let ghost csm = cs@.map_values(|c: usize| c as int);
            proof {
                assert(arena@[id as int] == NodeM::BlockN(csm));
            }
            let mut k: usize = 0;
            proof {
                assert(csm.subrange(0, 0) =~= Seq::<int>::empty());
                assert(out@ =~= old(out)@ + join_le(
                    spec_lines_seq(arena@, csm.subrange(0, 0), id as int, config@.pretty,
                        config@.indent, (depth + 1) as nat),
                    config@.line_ending,
                ));
            }
            while k < cs.len()
                invariant
                    arena.wf(),
                    id < arena@.len(),
                    depth + id < arena@.len() + 1,
                    k <= cs@.len(),
                    csm == cs@.map_values(|c: usize| c as int),
                    csm.len() == cs@.len(),
                    arena@[id as int] == NodeM::BlockN(csm),
                    out@ == old(out)@ + join_le(
                        spec_lines_seq(arena@, csm.subrange(0, k as int), id as int,
                            config@.pretty, config@.indent, (depth + 1) as nat),
                        config@.line_ending,
                    ),
                decreases cs@.len() - k,
            {
                proof {
                    assert(node_wf(arena@[id as int], id as int));
                    assert(csm[k as int] == cs@[k as int] as int);
                    assert(0 <= csm[k as int] < id as int);
                }
                let c = cs[k];
                proof {
                    assert(c < id);
                }
                render_lines(arena, c, config, depth + 1, out);
                proof {
                    assert(csm.subrange(0, k + 1 as int)
                        =~= csm.subrange(0, k as int).push(csm[k as int]));
                    lemma_lines_seq_snoc(arena@, csm.subrange(0, k as int), csm[k as int],
                        id as int, config@.pretty, config@.indent, (depth + 1) as nat);
                    lemma_join_concat(
                        spec_lines_seq(arena@, csm.subrange(0, k as int), id as int,
                            config@.pretty, config@.indent, (depth + 1) as nat),
                        spec_lines(arena@, csm[k as int], config@.pretty, config@.indent,
                            (depth + 1) as nat),
                        config@.line_ending,
                    );
                    assert(out@ =~= old(out)@ + join_le(
                        spec_lines_seq(arena@, csm.subrange(0, k + 1 as int), id as int,
                            config@.pretty, config@.indent, (depth + 1) as nat),
                        config@.line_ending,
                    ));
                }
                k = k + 1;
            }
            proof {
                assert(csm.subrange(0, csm.len() as int) =~= csm);
            }
        },
    }
}

/// Render the resolved tree under `root` to text.  The walk allocates
/// nothing beyond the output buffer it fills.
pub fn render(arena: &TransformedArena, root: usize, config: &RenderConfig) -> (out: String)
    requires
        arena.wf(),
        root < arena@.len(),
    ensures
        out@ == spec_render(arena@, root as int, config@),
{
    let mut out = String::new();
    let node = arena.get(root);
    match node {
        TransformedNode::Block(cs) => {
            let ghost csm = cs@.map_values(|c: usize| c as int);
            proof {
                assert(arena@[root as int] == NodeM::BlockN(csm));
            }
            let mut k: usize = 0;
            proof {
                assert(csm.subrange(0, 0) =~= Seq::<int>::empty());
            }
            while k < cs.len()
                invariant
                    arena.wf(),
                    root < arena@.len(),
                    k <= cs@.len(),
                    csm == cs@.map_values(|c: usize| c as int),
                    csm.len() == cs@.len(),
                    arena@[root as int] == NodeM::BlockN(csm),
                    out@ == join_le(
                        spec_lines_seq(arena@, csm.subrange(0, k as int), root as int,
                            config@.pretty, config@.indent, 0),
                        config@.line_ending,
                    ),
                decreases cs@.len() - k,
            {
                proof {
                    assert(arena_wf(arena@));
                    assert(node_wf(arena@[root as int], root as int));
                    assert(node_wf(NodeM::BlockN(csm), root as int));
                    assert(0 <= k < csm.len());
                    assert(csm[k as int] == cs@[k as int] as int);
                    assert(0 <= csm[k as int] < root as int);
                }
                let c = cs[k];
                proof {
                    assert(c < root);
                }
                render_lines(arena, c, config, 0, &mut out);
                proof {
                    assert(csm.subrange(0, k + 1 as int)
                        =~= csm.subrange(0, k as int).push(csm[k as int]));
                    lemma_lines_seq_snoc(arena@, csm.subrange(0, k as int), csm[k as int],
                        root as int, config@.pretty, config@.indent, 0);
                    lemma_join_concat(
                        spec_lines_seq(arena@, csm.subrange(0, k as int), root as int,
                            config@.pretty, config@.indent, 0),
                        spec_lines(arena@, csm[k as int], config@.pretty, config@.indent, 0),
                        config@.line_ending,
                    );
                    assert(out@ =~= join_le(
                        spec_lines_seq(arena@, csm.subrange(0, k + 1 as int), root as int,
                            config@.pretty, config@.indent, 0),
                        config@.line_ending,
                    ));
                }
                k = k + 1;
            }
            proof {
                assert(csm.subrange(0, csm.len() as int) =~= csm);
            }
        },
        TransformedNode::Value(_) => {
            render_lines(arena, root, config, 0, &mut out);
        },
    }
    out
}


/// Selecting another line terminator changes only the terminator
/// text between lines: the line texts and their order are the same
/// under any two configurations that agree on `pretty` and the indent
/// string, and each rendering is exactly those lines joined by its own
/// terminator.
pub proof fn lemma_line_endings_only(arena: Seq<NodeM>, root: int, cfg1: ConfigM, cfg2: ConfigM)
    requires
        cfg1.pretty == cfg2.pretty,
        cfg1.indent == cfg2.indent,
    ensures
        spec_top_lines(arena, root, cfg1.pretty, cfg1.indent)
            == spec_top_lines(arena, root, cfg2.pretty, cfg2.indent),
        spec_render(arena, root, cfg1)
            == join_le(spec_top_lines(arena, root, cfg1.pretty, cfg1.indent), cfg1.line_ending),
        spec_render(arena, root, cfg2)
            == join_le(spec_top_lines(arena, root, cfg1.pretty, cfg1.indent), cfg2.line_ending),
{
}

/// The text after discarding leading spaces, as a re-parse of one
/// output line would see it.
pub open spec fn strip_spaces(s: Seq<char>) -> Seq<char>
    decreases s.len(),
{
    if s.len() > 0 && s[0] == ' ' {
        strip_spaces(s.drop_first())
    } else {
        s
    }
}

/// Whether the text consists of space characters only.
pub open spec fn all_spaces(s: Seq<char>) -> bool {
    forall|i: int| 0 <= i < s.len() ==> s[i] == ' '
}

/// Discarding leading spaces sees through an all-space prefix.
proof fn lemma_strip_prefix(sp: Seq<char>, t: Seq<char>)
    requires
        all_spaces(sp),
    ensures
        strip_spaces(sp + t) == strip_spaces(t),
    decreases sp.len(),
{
    if sp.len() == 0 {
        assert(sp + t =~= t);
    } else {
        assert((sp + t)[0] == sp[0]);
        assert((sp + t).drop_first() =~= sp.drop_first() + t);
        assert(all_spaces(sp.drop_first()));
        lemma_strip_prefix(sp.drop_first(), t);
    }
}

/// Repeated copies of an all-space indent string are all spaces.
proof fn lemma_indent_all_spaces(indent: Seq<char>, depth: nat)
    requires
        all_spaces(indent),
    ensures
        all_spaces(spec_indent(indent, depth)),
    decreases depth,
{
    if depth > 0 {
        lemma_indent_all_spaces(indent, (depth - 1) as nat);
        let a = spec_indent(indent, (depth - 1) as nat);
        assert forall|i: int| 0 <= i < (a + indent).len() implies (a + indent)[i] == ' ' by {
            if i < a.len() {
                assert((a + indent)[i] == a[i]);
            } else {
                assert((a + indent)[i] == indent[i - a.len()]);
            }
        }
    }
}

/// Pretty and compact renderings of one node agree line for line once
/// leading indentation spaces are discarded.
pub proof fn lemma_pretty_compact(arena: Seq<NodeM>, id: int, indent: Seq<char>, depth: nat)
    requires
        all_spaces(indent),
    ensures
        ({
            let lp = spec_lines(arena, id, true, indent, depth);
            let lc = spec_lines(arena, id, false, indent, depth);
            &&& lp.len() == lc.len()
            &&& forall|k: int| 0 <= k < lp.len()
                ==> strip_spaces(#[trigger] lp[k]) == strip_spaces(lc[k])
        }),
    decreases id, node_measure(arena, id),
{
    if 0 <= id < arena.len() {
        match arena[id] {
            NodeM::ValueN(v) => {
                lemma_indent_all_spaces(indent, depth);
                lemma_strip_prefix(spec_indent(indent, depth), value_text(v));
                assert(Seq::<char>::empty() + value_text(v) =~= value_text(v));
            },
            NodeM::BlockN(cs) => {
                lemma_pretty_compact_seq(arena, cs, id, indent, (depth + 1) as nat);
            },
        }
    }
}

/// The list form of `lemma_pretty_compact`.
proof fn lemma_pretty_compact_seq(
    arena: Seq<NodeM>,
    cs: Seq<int>,
    parent: int,
    indent: Seq<char>,
    depth: nat,
)
    requires
        all_spaces(indent),
    ensures
        ({
            let lp = spec_lines_seq(arena, cs, parent, true, indent, depth);
            let lc = spec_lines_seq(arena, cs, parent, false, indent, depth);
            &&& lp.len() == lc.len()
            &&& forall|k: int| 0 <= k < lp.len()
                ==> strip_spaces(#[trigger] lp[k]) == strip_spaces(lc[k])
        }),
    decreases parent, cs.len(),
{
    if cs.len() > 0 {
        if 0 <= cs[0] < parent {
            lemma_pretty_compact(arena, cs[0], indent, depth);
        }
        lemma_pretty_compact_seq(arena, cs.drop_first(), parent, indent, depth);
        let ap = if 0 <= cs[0] < parent {
            spec_lines(arena, cs[0], true, indent, depth)
        } else {
            Seq::<Seq<char>>::empty()
        };
        let ac = if 0 <= cs[0] < parent {
            spec_lines(arena, cs[0], false, indent, depth)
        } else {
            Seq::<Seq<char>>::empty()
        };
        let rp = spec_lines_seq(arena, cs.drop_first(), parent, true, indent, depth);
        let rc = spec_lines_seq(arena, cs.drop_first(), parent, false, indent, depth);
        let lp = spec_lines_seq(arena, cs, parent, true, indent, depth);
        let lc = spec_lines_seq(arena, cs, parent, false, indent, depth);
        assert(lp == ap + rp);
        assert(lc == ac + rc);
        assert forall|k: int| 0 <= k < lp.len()
            implies strip_spaces(#[trigger] lp[k]) == strip_spaces(lc[k]) by {
            if k < ap.len() {
                assert(lp[k] == ap[k]);
                assert(lc[k] == ac[k]);
            } else {
                assert(lp[k] == rp[k - ap.len()]);
                assert(lc[k] == rc[k - ac.len()]);
            }
        }
    }
}

/// Formatting idempotence for a whole tree: the compact and the pretty
/// rendering of the same resolved tree carry the same lines in the
/// same order once leading indentation is discarded, so a re-parse
/// sees the same content either way.
pub proof fn lemma_formatting_idempotent(arena: Seq<NodeM>, root: int, indent: Seq<char>)
    requires
        all_spaces(indent),
    ensures
        ({
            let lp = spec_top_lines(arena, root, true, indent);
            let lc = spec_top_lines(arena, root, false, indent);
            &&& lp.len() == lc.len()
            &&& forall|k: int| 0 <= k < lp.len()
                ==> strip_spaces(#[trigger] lp[k]) == strip_spaces(lc[k])
        }),
{
    if 0 <= root < arena.len() {
        match arena[root] {
            NodeM::BlockN(cs) => {
                lemma_pretty_compact_seq(arena, cs, root, indent, 0);
            },
            NodeM::ValueN(_) => {
                lemma_pretty_compact(arena, root, indent, 0);
            },
        }
    }
}

} // verus!
