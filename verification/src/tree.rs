//! The tree materializer: flattening one snapshot into displayable lines.
//!
//! Every node yields exactly one line; children follow their parent only
//! when the parent's path is expanded.  A line's diff classification is the
//! recorded one, or the classification inherited from the nearest added or
//! removed ancestor.  Each line's text is a sequence of styled fragments,
//! clipped to the display width with a truncation marker.

use vstd::prelude::*;
use vstd::string::StrSliceExecFns;
use vstd::string::StringExecFns;

use crate::diff::{DiffKind, DiffResult, entries_class};
use crate::expand::ExpansionState;
use crate::value::{
    PathSeg, SegModel, TreePath, Value, child_of, entries_lookup, lemma_lookup_witness, node_at,
    path_clone, path_model, path_push, value_at,
};

verus! {

/// Semantic style tag of one text fragment, independent of diff coloring.
#[derive(Clone, Copy, Debug, PartialEq, Eq, Structural)]
pub enum SemStyle {
    Name,
    Punct,
    Text,
    Number,
}

/// One styled fragment of a display line.
pub struct StyledSpan {
    pub text: String,
    pub style: SemStyle,
}

/// Mathematical image of one display line.
pub struct LineModel {
    pub path: Seq<SegModel>,
    pub depth: int,
    pub expandable: bool,
    pub diff: DiffKind,
    pub spans: Seq<(Seq<char>, SemStyle)>,
}

/// One renderable row: a single tree node at a given depth.
pub struct TreeLine {
    pub path: TreePath,
    pub depth: usize,
    pub expandable: bool,
    pub diff: DiffKind,
    pub spans: Vec<StyledSpan>,
}

/// The mathematical image of a span list.
pub open spec fn spans_model(s: Seq<StyledSpan>) -> Seq<(Seq<char>, SemStyle)> {
    Seq::new(s.len(), |i: int| (s[i].text@, s[i].style))
}

impl TreeLine {
    /// The mathematical image of this line.
    pub open spec fn model(self) -> LineModel {
        LineModel {
            path: path_model(self.path@),
            depth: self.depth as int,
            expandable: self.expandable,
            diff: self.diff,
            spans: spans_model(self.spans@),
        }
    }
}

/// The mathematical image of a line list.
pub open spec fn lines_model(s: Seq<TreeLine>) -> Seq<LineModel> {
    Seq::new(s.len(), |i: int| s[i].model())
}

/// A node is expandable exactly when it is a sequence or mapping with at
/// least one child.
pub open spec fn spec_expandable(v: Value) -> bool {
    match v {
        Value::Scalar(_) => false,
        Value::Sequence(items) => items@.len() > 0,
        Value::Mapping(entries) => entries@.len() > 0,
    }
}

/// The decimal digit character for `d`.
pub open spec fn digit_char(d: int) -> char {
    if d == 0 {
        '0'
    } else if d == 1 {
        '1'
    } else if d == 2 {
        '2'
    } else if d == 3 {
        '3'
    } else if d == 4 {
        '4'
    } else if d == 5 {
        '5'
    } else if d == 6 {
        '6'
    } else if d == 7 {
        '7'
    } else if d == 8 {
        '8'
    } else {
        '9'
    }
}

/// The decimal digits of `n`, most significant first.
pub open spec fn dec_digits(n: int) -> Seq<char>
    decreases n,
{
    if n < 10 {
        seq![digit_char(n)]
    } else {
        dec_digits(n / 10).push(digit_char(n % 10))
    }
}

/// `n` spaces (none for negative `n`).
pub open spec fn spaces(n: int) -> Seq<char> {
    Seq::new(
        if n < 0 {
            0nat
        } else {
            n as nat
        },
        |i: int| ' ',
    )
}

/// The two-character expansion marker of a line.
pub open spec fn marker_text(expandable: bool, expanded: bool) -> Seq<char> {
    if !expandable {
        seq![' ', ' ']
    } else if expanded {
        seq!['-', ' ']
    } else {
        seq!['+', ' ']
    }
}

/// Whether `s` is non-empty and all decimal digits.
pub open spec fn is_digit_seq(s: Seq<char>) -> bool {
    s.len() > 0 && forall|i: int| 0 <= i < s.len() ==> 48 <= #[trigger] (s[i] as u32) <= 57
}

/// Scalar text styled as a number when it is all digits, plain text
/// otherwise.
pub open spec fn scalar_style(t: Seq<char>) -> SemStyle {
    if is_digit_seq(t) {
        SemStyle::Number
    } else {
        SemStyle::Text
    }
}

/// The value part of a label line: scalar text, or bracketed child count.
pub open spec fn value_spans(v: Value) -> Seq<(Seq<char>, SemStyle)> {
    match v {
        Value::Scalar(t) => seq![(t@, scalar_style(t@))],
        Value::Sequence(items) => seq![
            (seq!['['], SemStyle::Punct),
            (dec_digits(items@.len() as int), SemStyle::Number),
            (seq![']'], SemStyle::Punct),
        ],
        Value::Mapping(entries) => seq![
            (seq!['{'], SemStyle::Punct),
            (dec_digits(entries@.len() as int), SemStyle::Number),
            (seq!['}'], SemStyle::Punct),
        ],
    }
}

/// The unclipped spans of a node's label line: indent, marker, label,
/// separator, value part.
pub open spec fn label_spans(label: Seq<char>, v: Value, expanded: bool, depth: int) -> Seq<
    (Seq<char>, SemStyle),
> {
    seq![
        (spaces(2 * depth), SemStyle::Punct),
        (marker_text(spec_expandable(v), expanded), SemStyle::Punct),
        (label, SemStyle::Name),
        (seq![':', ' '], SemStyle::Punct),
    ] + value_spans(v)
}

/// Total character count of the spans from `i` on.
pub open spec fn spans_len_from(s: Seq<(Seq<char>, SemStyle)>, i: int) -> nat
    decreases s.len() - i,
{
    if i < 0 || i >= s.len() {
        0
    } else {
        s[i].0.len() + spans_len_from(s, i + 1)
    }
}

/// Total character count of a span list.
pub open spec fn spans_len(s: Seq<(Seq<char>, SemStyle)>) -> nat {
    spans_len_from(s, 0)
}

/// The spans from `i` on cut down to `k` characters in all.
pub open spec fn spans_prefix_from(s: Seq<(Seq<char>, SemStyle)>, i: int, k: int) -> Seq<
    (Seq<char>, SemStyle),
>
    decreases s.len() - i,
{
    if i < 0 || i >= s.len() || k <= 0 {
        Seq::empty()
    } else if s[i].0.len() <= k {
        seq![s[i]] + spans_prefix_from(s, i + 1, k - s[i].0.len())
    } else {
        seq![(s[i].0.take(k), s[i].1)]
    }
}

/// The truncation marker, itself cut down for very narrow widths.
pub open spec fn ellipsis(w: int) -> Seq<char> {
    seq!['.', '.', '.'].take(
        if w >= 3 {
            3
        } else if w < 0 {
            0
        } else {
            w
        },
    )
}

/// A span list clipped to `width` characters: unchanged when it fits, else
/// cut to leave room for the truncation marker, which is appended.
pub open spec fn clip_spans(s: Seq<(Seq<char>, SemStyle)>, width: int) -> Seq<
    (Seq<char>, SemStyle),
> {
    if spans_len(s) <= width {
        s
    } else {
        spans_prefix_from(s, 0, width - 3).push((ellipsis(width), SemStyle::Punct))
    }
}

/// The classification a line shows: an added or removed ancestor wins,
/// otherwise the recorded classification of the node itself.
pub open spec fn effective_diff(
    inh: DiffKind,
    d: Seq<(Seq<SegModel>, DiffKind)>,
    pm: Seq<SegModel>,
) -> DiffKind {
    if inh == DiffKind::Added || inh == DiffKind::Removed {
        inh
    } else {
        entries_class(d, pm)
    }
}

/// What the children inherit: only added or removed pass down.
pub open spec fn pass_down(eff: DiffKind) -> DiffKind {
    if eff == DiffKind::Added || eff == DiffKind::Removed {
        eff
    } else {
        DiffKind::Unchanged
    }
}

/// The lines of one node and, when it is expanded, of its subtree.
pub open spec fn render_node(
    label: Seq<char>,
    v: Value,
    pm: Seq<SegModel>,
    es: Set<Seq<SegModel>>,
    d: Seq<(Seq<SegModel>, DiffKind)>,
    inh: DiffKind,
    depth: int,
    width: int,
) -> Seq<LineModel>
    decreases v, 0int, 0int,
{
    let eff = effective_diff(inh, d, pm);
    let expanded = spec_expandable(v) && es.contains(pm);
    let own = LineModel {
        path: pm,
        depth,
        expandable: spec_expandable(v),
        diff: eff,
        spans: clip_spans(label_spans(label, v, expanded, depth), width),
    };
    seq![own] + if expanded {
        match v {
            Value::Sequence(items) => render_seq_children(
                items,
                0,
                pm,
                es,
                d,
                pass_down(eff),
                depth,
                width,
            ),
            Value::Mapping(entries) => render_map_children(
                entries,
                0,
                pm,
                es,
                d,
                pass_down(eff),
                depth,
                width,
            ),
            Value::Scalar(_) => Seq::empty(),
        }
    } else {
        Seq::empty()
    }
}

/// The lines of the sequence children from index `i` on.
pub open spec fn render_seq_children(
    items: Vec<Value>,
    i: int,
    pm: Seq<SegModel>,
    es: Set<Seq<SegModel>>,
    d: Seq<(Seq<SegModel>, DiffKind)>,
    inh: DiffKind,
    depth: int,
    width: int,
) -> Seq<LineModel>
    decreases items, 1int, items@.len() - i,
    via render_seq_children_dec
{
    if i < 0 || i >= items@.len() {
        Seq::empty()
    } else {
        render_node(
            dec_digits(i),
            items@[i],
            pm.push(SegModel::Index(i)),
            es,
            d,
            inh,
            depth + 1,
            width,
        ) + render_seq_children(items, i + 1, pm, es, d, inh, depth, width)
    }
}

#[via_fn]
proof fn render_seq_children_dec(
    items: Vec<Value>,
    i: int,
    pm: Seq<SegModel>,
    es: Set<Seq<SegModel>>,
    d: Seq<(Seq<SegModel>, DiffKind)>,
    inh: DiffKind,
    depth: int,
    width: int,
) {
    broadcast use vstd::std_specs::vec::axiom_vec_index_decreases;

    if 0 <= i < items@.len() {
        assert(decreases_to!(items => items[i]));
    }
}

/// The lines of one mapping entry's subtree.
pub open spec fn render_entry(
    e: (String, Value),
    pm: Seq<SegModel>,
    es: Set<Seq<SegModel>>,
    d: Seq<(Seq<SegModel>, DiffKind)>,
    inh: DiffKind,
    depth: int,
    width: int,
) -> Seq<LineModel>
    decreases e, 0int, 0int,
{
    render_node(e.0@, e.1, pm.push(SegModel::Key(e.0@)), es, d, inh, depth + 1, width)
}

/// The lines of the mapping children from index `i` on.
pub open spec fn render_map_children(
    entries: Vec<(String, Value)>,
    i: int,
    pm: Seq<SegModel>,
    es: Set<Seq<SegModel>>,
    d: Seq<(Seq<SegModel>, DiffKind)>,
    inh: DiffKind,
    depth: int,
    width: int,
) -> Seq<LineModel>
    decreases entries, 1int, entries@.len() - i,
    via render_map_children_dec
{
    if i < 0 || i >= entries@.len() {
        Seq::empty()
    } else {
        render_entry(entries@[i], pm, es, d, inh, depth, width) + render_map_children(
            entries,
            i + 1,
            pm,
            es,
            d,
            inh,
            depth,
            width,
        )
    }
}

#[via_fn]
proof fn render_map_children_dec(
    entries: Vec<(String, Value)>,
    i: int,
    pm: Seq<SegModel>,
    es: Set<Seq<SegModel>>,
    d: Seq<(Seq<SegModel>, DiffKind)>,
    inh: DiffKind,
    depth: int,
    width: int,
) {
    broadcast use vstd::std_specs::vec::axiom_vec_index_decreases;

    if 0 <= i < entries@.len() {
        assert(decreases_to!(entries => entries[i]));
    }
}

/// The lines of a whole snapshot level from entry `i` on: every root in
/// order, each with its visible subtree.
pub open spec fn render_snapshot(
    values: Vec<(String, Value)>,
    i: int,
    es: Set<Seq<SegModel>>,
    d: Seq<(Seq<SegModel>, DiffKind)>,
    width: int,
) -> Seq<LineModel>
    decreases values@.len() - i,
{
    if i < 0 || i >= values@.len() {
        Seq::empty()
    } else {
        render_node(
            values@[i].0@,
            values@[i].1,
            seq![SegModel::Key(values@[i].0@)],
            es,
            d,
            DiffKind::Unchanged,
            0,
            width,
        ) + render_snapshot(values, i + 1, es, d, width)
    }
}

/// One decimal digit as a string slice.
fn digit_str(d: usize) -> (r: &'static str)
    requires
        d < 10,
    ensures
        r@ == seq![digit_char(d as int)],
{
    proof {
        reveal_strlit("0");
        reveal_strlit("1");
        reveal_strlit("2");
        reveal_strlit("3");
        reveal_strlit("4");
        reveal_strlit("5");
        reveal_strlit("6");
        reveal_strlit("7");
        reveal_strlit("8");
        reveal_strlit("9");
    }
    let r: &'static str = if d == 0 {
        "0"
    } else if d == 1 {
        "1"
    } else if d == 2 {
        "2"
    } else if d == 3 {
        "3"
    } else if d == 4 {
        "4"
    } else if d == 5 {
        "5"
    } else if d == 6 {
        "6"
    } else if d == 7 {
        "7"
    } else if d == 8 {
        "8"
    } else {
        "9"
    };
    proof {
        assert(r@ =~= seq![digit_char(d as int)]);
    }
    r
}

/// The decimal text of `n`.
pub fn format_count(n: usize) -> (r: String)
    ensures
        r@ == dec_digits(n as int),
    decreases n,
{
    let d = n % 10;
    if n < 10 {
        digit_str(d).to_owned()
    } else {
        let mut s = format_count(n / 10);
        s.append(digit_str(d));
        s
    }
}

/// The indent text for `depth`: two spaces per level.
fn indent_string(depth: usize) -> (r: String)
    ensures
        r@ == spaces(2 * depth),
{
    let mut r = String::new();
    for j in 0..depth
        invariant
            r@ =~= spaces(2 * j),
    {
        r.append("  ");
        proof {
            reveal_strlit("  ");
            assert("  "@ =~= seq![' ', ' ']);
            assert(r@ =~= spaces(2 * (j + 1)));
        }
    }
    proof {
        assert(r@ =~= spaces(2 * depth));
    }
    r
}

/// The style of scalar text.
fn style_of_text(t: &String) -> (s: SemStyle)
    ensures
        s == scalar_style(t@),
{
    let st = t.as_str();
    let n = st.unicode_len();
    if n == 0 {
        return SemStyle::Text;
    }
    for i in 0..n
        invariant
            st@ == t@,
            n == t@.len(),
            n > 0,
            forall|j: int| 0 <= j < i ==> 48 <= #[trigger] (t@[j] as u32) <= 57,
    {
        let c = st.get_char(i);
        let cv = c as u32;
        if cv < 48 || cv > 57 {
            assert(!is_digit_seq(t@));
            return SemStyle::Text;
        }
    }
    assert(is_digit_seq(t@));
    SemStyle::Number
}

/// Whether the spans fit within `width` characters.
fn spans_fit(spans: &Vec<StyledSpan>, width: usize) -> (r: bool)
    ensures
        r == (spans_len(spans_model(spans@)) <= width as int),
{
    let ghost sm = spans_model(spans@);
    let mut acc: usize = 0;
    let n = spans.len();
    for i in 0..n
        invariant
            sm == spans_model(spans@),
            n == spans@.len(),
            acc <= width,
            spans_len(sm) == acc + spans_len_from(sm, i as int),
    {
        let l = spans[i].text.as_str().unicode_len();
        assert(sm[i as int].0 == spans@[i as int].text@);
        if l > width - acc {
            return false;
        }
        acc = acc + l;
    }
    true
}

/// The spans cut down to `budget` characters in all.
fn clip_to(spans: &Vec<StyledSpan>, budget: usize) -> (out: Vec<StyledSpan>)
    ensures
        spans_model(out@) == spans_prefix_from(spans_model(spans@), 0, budget as int),
{
    let ghost sm = spans_model(spans@);
    let mut out: Vec<StyledSpan> = Vec::new();
    let mut k = budget;
    let n = spans.len();
    proof {
        assert(spans_model(out@) =~= Seq::<(Seq<char>, SemStyle)>::empty());
    }
    for i in 0..n
        invariant
            sm == spans_model(spans@),
            n == spans@.len(),
            k <= budget,
            spans_prefix_from(sm, 0, budget as int) == spans_model(out@) + spans_prefix_from(
                sm,
                i as int,
                k as int,
            ),
    {
        if k == 0 {
            proof {
                assert(spans_prefix_from(sm, 0, budget as int) =~= spans_model(out@));
            }
            return out;
        }
        let l = spans[i].text.as_str().unicode_len();
        assert(sm[i as int].0 == spans@[i as int].text@);
        assert(sm[i as int].1 == spans@[i as int].style);
        if l <= k {
            out.push(StyledSpan { text: spans[i].text.clone(), style: spans[i].style });
            k = k - l;
            proof {
                assert(spans_model(out@) =~= spans_model(out@.drop_last()) + seq![sm[i as int]]);
                assert(spans_prefix_from(sm, 0, budget as int) =~= spans_model(out@)
                    + spans_prefix_from(sm, i as int + 1, k as int));
            }
        } else {
            let cut = spans[i].text.as_str().substring_char(0, k).to_owned();
            out.push(StyledSpan { text: cut, style: spans[i].style });
            proof {
                assert(spans@[i as int].text@.subrange(0, k as int) == sm[i as int].0.take(
                    k as int,
                ));
                assert(spans_model(out@) =~= spans_model(out@.drop_last()) + seq![
                    (sm[i as int].0.take(k as int), sm[i as int].1),
                ]);
                assert(spans_prefix_from(sm, i as int, k as int) =~= seq![
                    (sm[i as int].0.take(k as int), sm[i as int].1),
                ]);
                assert(spans_model(out@) =~= spans_prefix_from(sm, 0, budget as int));
            }
            return out;
        }
    }
    proof {
        assert(spans_prefix_from(sm, 0, budget as int) =~= spans_model(out@));
    }
    out
}

/// The spans clipped to `width`, with the truncation marker when cut.
fn clip_line(spans: Vec<StyledSpan>, width: usize) -> (out: Vec<StyledSpan>)
    ensures
        spans_model(out@) == clip_spans(spans_model(spans@), width as int),
{
    if spans_fit(&spans, width) {
        return spans;
    }
    let budget = if width >= 3 {
        width - 3
    } else {
        0
    };
    let mut out = clip_to(&spans, budget);
    proof {
        assert(spans_prefix_from(spans_model(spans@), 0, budget as int) =~= spans_prefix_from(
            spans_model(spans@),
            0,
            width as int - 3,
        ));
    }
    let dots: &'static str = if width == 0 {
        ""
    } else if width == 1 {
        "."
    } else if width == 2 {
        ".."
    } else {
        "..."
    };
    proof {
        reveal_strlit("");
        reveal_strlit(".");
        reveal_strlit("..");
        reveal_strlit("...");
        assert(dots@ =~= ellipsis(width as int));
    }
    out.push(StyledSpan { text: dots.to_owned(), style: SemStyle::Punct });
    proof {
        assert(spans_model(out@) =~= clip_spans(spans_model(spans@), width as int));
    }
    out
}

/// The clipped spans of one node's label line.
fn make_spans(label: &str, v: &Value, expanded: bool, depth: usize, width: usize) -> (out: Vec<
    StyledSpan,
>)
    ensures
        spans_model(out@) == clip_spans(label_spans(label@, *v, expanded, depth as int), width as int),
{
    let mut spans: Vec<StyledSpan> = Vec::new();
    spans.push(StyledSpan { text: indent_string(depth), style: SemStyle::Punct });
    let expandable = match v {
        Value::Scalar(_) => false,
        Value::Sequence(items) => items.len() > 0,
        Value::Mapping(entries) => entries.len() > 0,
    };
    let marker: &'static str = if !expandable {
        "  "
    } else if expanded {
        "- "
    } else {
        "+ "
    };
    proof {
        reveal_strlit("  ");
        reveal_strlit("- ");
        reveal_strlit("+ ");
        assert(marker@ =~= marker_text(spec_expandable(*v), expanded));
    }
    spans.push(StyledSpan { text: marker.to_owned(), style: SemStyle::Punct });
    spans.push(StyledSpan { text: label.to_owned(), style: SemStyle::Name });
    proof {
        reveal_strlit(": ");
        assert(": "@ =~= seq![':', ' ']);
    }
    spans.push(StyledSpan { text: ": ".to_owned(), style: SemStyle::Punct });
    proof {
        reveal_strlit("[");
        reveal_strlit("]");
        reveal_strlit("{");
        reveal_strlit("}");
        assert("["@ =~= seq!['[']);
        assert("]"@ =~= seq![']']);
        assert("{"@ =~= seq!['{']);
        assert("}"@ =~= seq!['}']);
    }
    match v {
        Value::Scalar(t) => {
            let style = style_of_text(t);
            spans.push(StyledSpan { text: t.clone(), style });
        },
        Value::Sequence(items) => {
            spans.push(StyledSpan { text: "[".to_owned(), style: SemStyle::Punct });
            spans.push(StyledSpan { text: format_count(items.len()), style: SemStyle::Number });
            spans.push(StyledSpan { text: "]".to_owned(), style: SemStyle::Punct });
        },
        Value::Mapping(entries) => {
            spans.push(StyledSpan { text: "{".to_owned(), style: SemStyle::Punct });
            spans.push(StyledSpan { text: format_count(entries.len()), style: SemStyle::Number });
            spans.push(StyledSpan { text: "}".to_owned(), style: SemStyle::Punct });
        },
    }
    proof {
        assert(spans_model(spans@) =~= label_spans(label@, *v, expanded, depth as int));
    }
    clip_line(spans, width)
}

/// Appends the lines of the node at `path` and of its visible subtree.
fn render_node_exec(
    label: &str,
    v: &Value,
    path: &TreePath,
    es: &ExpansionState,
    d: &DiffResult,
    inh: DiffKind,
    depth: usize,
    width: usize,
    out: &mut Vec<TreeLine>,
)
    requires
        depth < path@.len(),
    ensures
        lines_model(final(out)@) == lines_model(old(out)@) + render_node(
            label@,
            *v,
            path_model(path@),
            es.model(),
            d.model(),
            inh,
            depth as int,
            width as int,
        ),
    decreases *v, 0int, 0int,
{
    let ghost pm = path_model(path@);
    let own_kind = d.get(path);
    let eff = if inh == DiffKind::Added || inh == DiffKind::Removed {
        inh
    } else {
        own_kind
    };
    let expandable = match v {
        Value::Scalar(_) => false,
        Value::Sequence(items) => items.len() > 0,
        Value::Mapping(entries) => entries.len() > 0,
    };
    let expanded = expandable && es.contains(path);
    let spans = make_spans(label, v, expanded, depth, width);
    let line = TreeLine {
        path: path_clone(path),
        depth,
        expandable,
        diff: eff,
        spans,
    };
    let ghost mid = lines_model(out@) + seq![line.model()];
    out.push(line);
    proof {
        assert(lines_model(out@) =~= mid);
    }
    if expanded {
        let down = if eff == DiffKind::Added || eff == DiffKind::Removed {
            eff
        } else {
            DiffKind::Unchanged
        };
        match v {
            Value::Sequence(items) => {
                proof {
                    assert(*v == Value::Sequence(*items));
                    assert(decreases_to!(*v => v->Sequence_0));
                }
                render_seq_children_exec(items, 0, path, es, d, down, depth, width, out);
            },
            Value::Mapping(entries) => {
                proof {
                    assert(*v == Value::Mapping(*entries));
                    assert(decreases_to!(*v => v->Mapping_0));
                }
                render_map_children_exec(entries, 0, path, es, d, down, depth, width, out);
            },
            Value::Scalar(_) => {},
        }
    }
    proof {
        assert(lines_model(out@) =~= lines_model(old(out)@) + render_node(
            label@,
            *v,
            pm,
            es.model(),
            d.model(),
            inh,
            depth as int,
            width as int,
        ));
    }
}

/// Appends the lines of the sequence children from index `i` on.
fn render_seq_children_exec(
    items: &Vec<Value>,
    i: usize,
    path: &TreePath,
    es: &ExpansionState,
    d: &DiffResult,
    inh: DiffKind,
    depth: usize,
    width: usize,
    out: &mut Vec<TreeLine>,
)
    requires
        depth < path@.len(),
    ensures
        lines_model(final(out)@) == lines_model(old(out)@) + render_seq_children(
            *items,
            i as int,
            path_model(path@),
            es.model(),
            d.model(),
            inh,
            depth as int,
            width as int,
        ),
    decreases *items, 1int, items@.len() - i,
{
    if i >= items.len() {
        proof {
            assert(lines_model(out@) =~= lines_model(old(out)@) + render_seq_children(
                *items,
                i as int,
                path_model(path@),
                es.model(),
                d.model(),
                inh,
                depth as int,
                width as int,
            ));
        }
        return ;
    }
    let label = format_count(i);
    let child_path = path_push(path, PathSeg::Index(i));
    let pl = child_path.len();
    proof {
        assert(path_model(child_path@).len() == path_model(path@).len() + 1);
        assert(path_model(child_path@).len() == child_path@.len());
        assert(path_model(path@).len() == path@.len());
        assert(pl == path@.len() + 1);
    }
    proof {
        assert(decreases_to!(*items => items@[i as int]));
    }
    render_node_exec(label.as_str(), &items[i], &child_path, es, d, inh, depth + 1, width, out);
    render_seq_children_exec(items, i + 1, path, es, d, inh, depth, width, out);
    proof {
        assert(lines_model(out@) =~= lines_model(old(out)@) + render_seq_children(
            *items,
            i as int,
            path_model(path@),
            es.model(),
            d.model(),
            inh,
            depth as int,
            width as int,
        ));
    }
}

/// Appends the lines of one mapping entry's subtree.
fn render_entry_exec(
    e: &(String, Value),
    path: &TreePath,
    es: &ExpansionState,
    d: &DiffResult,
    inh: DiffKind,
    depth: usize,
    width: usize,
    out: &mut Vec<TreeLine>,
)
    requires
        depth < path@.len(),
    ensures
        lines_model(final(out)@) == lines_model(old(out)@) + render_entry(
            *e,
            path_model(path@),
            es.model(),
            d.model(),
            inh,
            depth as int,
            width as int,
        ),
    decreases *e, 0int, 0int,
{
    let child_path = path_push(path, PathSeg::Key(e.0.clone()));
    let pl = child_path.len();
    proof {
        assert(path_model(child_path@).len() == path_model(path@).len() + 1);
        assert(path_model(child_path@).len() == child_path@.len());
        assert(path_model(path@).len() == path@.len());
        assert(pl == path@.len() + 1);
    }
    proof {
        assert(decreases_to!(*e => e.1));
    }
    render_node_exec(e.0.as_str(), &e.1, &child_path, es, d, inh, depth + 1, width, out);
}

/// Appends the lines of the mapping children from index `i` on.
fn render_map_children_exec(
    entries: &Vec<(String, Value)>,
    i: usize,
    path: &TreePath,
    es: &ExpansionState,
    d: &DiffResult,
    inh: DiffKind,
    depth: usize,
    width: usize,
    out: &mut Vec<TreeLine>,
)
    requires
        depth < path@.len(),
    ensures
        lines_model(final(out)@) == lines_model(old(out)@) + render_map_children(
            *entries,
            i as int,
            path_model(path@),
            es.model(),
            d.model(),
            inh,
            depth as int,
            width as int,
        ),
    decreases *entries, 2int, entries@.len() - i,
{
    if i >= entries.len() {
        proof {
            assert(lines_model(out@) =~= lines_model(old(out)@) + render_map_children(
                *entries,
                i as int,
                path_model(path@),
                es.model(),
                d.model(),
                inh,
                depth as int,
                width as int,
            ));
        }
        return ;
    }
    proof {
        assert(decreases_to!(*entries => entries@[i as int]));
    }
    render_entry_exec(&entries[i], path, es, d, inh, depth, width, out);
    render_map_children_exec(entries, i + 1, path, es, d, inh, depth, width, out);
    proof {
        assert(lines_model(out@) =~= lines_model(old(out)@) + render_map_children(
            *entries,
            i as int,
            path_model(path@),
            es.model(),
            d.model(),
            inh,
            depth as int,
            width as int,
        ));
    }
}

/// Materializes the lines of one top-level entry's visible subtree.
pub fn render_value(
    name: &String,
    value: &Value,
    path: TreePath,
    expansion: &ExpansionState,
    diff: &DiffResult,
    depth: usize,
    width: usize,
) -> (lines: Vec<TreeLine>)
    requires
        depth < path@.len(),
    ensures
        lines_model(lines@) == render_node(
            name@,
            *value,
            path_model(path@),
            expansion.model(),
            diff.model(),
            DiffKind::Unchanged,
            depth as int,
            width as int,
        ),
{
    let mut lines: Vec<TreeLine> = Vec::new();
    proof {
        assert(lines_model(lines@) =~= Seq::<LineModel>::empty());
    }
    render_node_exec(
        name.as_str(),
        value,
        &path,
        expansion,
        diff,
        DiffKind::Unchanged,
        depth,
        width,
        &mut lines,
    );
    proof {
        assert(lines_model(lines@) =~= render_node(
            name@,
            *value,
            path_model(path@),
            expansion.model(),
            diff.model(),
            DiffKind::Unchanged,
            depth as int,
            width as int,
        ));
    }
    lines
}

/// How many nodes are reachable from this node following only expanded
/// containers: the node itself, plus its children's counts when expanded.
pub open spec fn visible_count(v: Value, pm: Seq<SegModel>, es: Set<Seq<SegModel>>) -> nat
    decreases v, 0int, 0int,
{
    1 + if spec_expandable(v) && es.contains(pm) {
        match v {
            Value::Sequence(items) => visible_seq_from(items, 0, pm, es),
            Value::Mapping(entries) => visible_map_from(entries, 0, pm, es),
            Value::Scalar(_) => 0,
        }
    } else {
        0
    }
}

/// Reachable-node count of the sequence children from `i` on.
pub open spec fn visible_seq_from(
    items: Vec<Value>,
    i: int,
    pm: Seq<SegModel>,
    es: Set<Seq<SegModel>>,
) -> nat
    decreases items, 1int, items@.len() - i,
    via visible_seq_from_dec
{
    if i < 0 || i >= items@.len() {
        0
    } else {
        visible_count(items@[i], pm.push(SegModel::Index(i)), es) + visible_seq_from(
            items,
            i + 1,
            pm,
            es,
        )
    }
}

#[via_fn]
proof fn visible_seq_from_dec(items: Vec<Value>, i: int, pm: Seq<SegModel>, es: Set<Seq<SegModel>>) {
    broadcast use vstd::std_specs::vec::axiom_vec_index_decreases;

    if 0 <= i < items@.len() {
        assert(decreases_to!(items => items[i]));
    }
}

/// Reachable-node count of one mapping entry's subtree.
pub open spec fn visible_entry(e: (String, Value), pm: Seq<SegModel>, es: Set<Seq<SegModel>>) -> nat
    decreases e, 0int, 0int,
{
    visible_count(e.1, pm.push(SegModel::Key(e.0@)), es)
}

/// Reachable-node count of the mapping children from `i` on.
pub open spec fn visible_map_from(
    entries: Vec<(String, Value)>,
    i: int,
    pm: Seq<SegModel>,
    es: Set<Seq<SegModel>>,
) -> nat
    decreases entries, 1int, entries@.len() - i,
    via visible_map_from_dec
{
    if i < 0 || i >= entries@.len() {
        0
    } else {
        visible_entry(entries@[i], pm, es) + visible_map_from(entries, i + 1, pm, es)
    }
}

#[via_fn]
proof fn visible_map_from_dec(
    entries: Vec<(String, Value)>,
    i: int,
    pm: Seq<SegModel>,
    es: Set<Seq<SegModel>>,
) {
    broadcast use vstd::std_specs::vec::axiom_vec_index_decreases;

    if 0 <= i < entries@.len() {
        assert(decreases_to!(entries => entries[i]));
    }
}

/// Reachable-node count of a whole snapshot level from entry `i` on.
pub open spec fn snap_visible_from(
    values: Vec<(String, Value)>,
    i: int,
    es: Set<Seq<SegModel>>,
) -> nat
    decreases values@.len() - i,
{
    if i < 0 || i >= values@.len() {
        0
    } else {
        visible_count(values@[i].1, seq![SegModel::Key(values@[i].0@)], es)
            + snap_visible_from(values, i + 1, es)
    }
}

/// The materializer emits exactly one line per node reachable through
/// expanded containers: no hidden subtree contributes a line.
pub proof fn lemma_render_node_count(
    label: Seq<char>,
    v: Value,
    pm: Seq<SegModel>,
    es: Set<Seq<SegModel>>,
    d: Seq<(Seq<SegModel>, DiffKind)>,
    inh: DiffKind,
    depth: int,
    width: int,
)
    ensures
        render_node(label, v, pm, es, d, inh, depth, width).len() == visible_count(v, pm, es),
    decreases v, 0int, 0int,
{
    if spec_expandable(v) && es.contains(pm) {
        match v {
            Value::Sequence(items) => {
                lemma_render_seq_children_count(items, 0, pm, es, d, pass_down(effective_diff(inh, d, pm)), depth, width);
            },
            Value::Mapping(entries) => {
                lemma_render_map_children_count(entries, 0, pm, es, d, pass_down(effective_diff(inh, d, pm)), depth, width);
            },
            Value::Scalar(_) => {},
        }
    }
}

/// Line count of the sequence children from `i` on equals their
/// reachable-node count.
pub proof fn lemma_render_seq_children_count(
    items: Vec<Value>,
    i: int,
    pm: Seq<SegModel>,
    es: Set<Seq<SegModel>>,
    d: Seq<(Seq<SegModel>, DiffKind)>,
    inh: DiffKind,
    depth: int,
    width: int,
)
    ensures
        render_seq_children(items, i, pm, es, d, inh, depth, width).len() == visible_seq_from(
            items,
            i,
            pm,
            es,
        ),
    decreases items, 1int, items@.len() - i,
{
    broadcast use vstd::std_specs::vec::axiom_vec_index_decreases;

    if 0 <= i < items@.len() {
        assert(decreases_to!(items => items[i]));
        lemma_render_node_count(
            dec_digits(i),
            items@[i],
            pm.push(SegModel::Index(i)),
            es,
            d,
            inh,
            depth + 1,
            width,
        );
        lemma_render_seq_children_count(items, i + 1, pm, es, d, inh, depth, width);
    }
}

/// Line count of the mapping children from `i` on equals their
/// reachable-node count.
pub proof fn lemma_render_map_children_count(
    entries: Vec<(String, Value)>,
    i: int,
    pm: Seq<SegModel>,
    es: Set<Seq<SegModel>>,
    d: Seq<(Seq<SegModel>, DiffKind)>,
    inh: DiffKind,
    depth: int,
    width: int,
)
    ensures
        render_map_children(entries, i, pm, es, d, inh, depth, width).len() == visible_map_from(
            entries,
            i,
            pm,
            es,
        ),
    decreases entries, 1int, entries@.len() - i,
{
    broadcast use vstd::std_specs::vec::axiom_vec_index_decreases;

    if 0 <= i < entries@.len() {
        assert(decreases_to!(entries => entries[i]));
        lemma_render_entry_count(entries@[i], pm, es, d, inh, depth, width);
        lemma_render_map_children_count(entries, i + 1, pm, es, d, inh, depth, width);
    }
}

/// Line count of one mapping entry's subtree equals its reachable-node
/// count.
pub proof fn lemma_render_entry_count(
    e: (String, Value),
    pm: Seq<SegModel>,
    es: Set<Seq<SegModel>>,
    d: Seq<(Seq<SegModel>, DiffKind)>,
    inh: DiffKind,
    depth: int,
    width: int,
)
    ensures
        render_entry(e, pm, es, d, inh, depth, width).len() == visible_entry(e, pm, es),
    decreases e, 2int, 0int,
{
    lemma_render_node_count(e.0@, e.1, pm.push(SegModel::Key(e.0@)), es, d, inh, depth + 1, width);
}

/// The materialization bound: the line list of a snapshot level holds
/// exactly one line per node reachable by following only expanded
/// containers from the roots, and so never more than that.
pub proof fn lemma_materialization_bound(
    values: Vec<(String, Value)>,
    i: int,
    es: Set<Seq<SegModel>>,
    d: Seq<(Seq<SegModel>, DiffKind)>,
    width: int,
)
    ensures
        render_snapshot(values, i, es, d, width).len() == snap_visible_from(values, i, es),
    decreases values@.len() - i,
{
    if 0 <= i < values@.len() {
        lemma_render_node_count(
            values@[i].0@,
            values@[i].1,
            seq![SegModel::Key(values@[i].0@)],
            es,
            d,
            DiffKind::Unchanged,
            0,
            width,
        );
        lemma_materialization_bound(values, i + 1, es, d, width);
    }
}

/// Whether some line carries exactly the path `p`.
pub open spec fn has_line(lines: Seq<LineModel>, p: Seq<SegModel>) -> bool {
    exists|i: int| 0 <= i < lines.len() && lines[i].path == p
}

/// A path appears in a concatenation exactly when it appears in a part.
pub proof fn lemma_has_line_concat(a: Seq<LineModel>, b: Seq<LineModel>, p: Seq<SegModel>)
    ensures
        has_line(a + b, p) == (has_line(a, p) || has_line(b, p)),
{
    if has_line(a + b, p) {
        let i = choose|i: int| 0 <= i < (a + b).len() && (a + b)[i].path == p;
        if i < a.len() {
            assert(a[i].path == p);
        } else {
            assert(b[i - a.len()].path == p);
        }
    }
    if has_line(a, p) {
        let i = choose|i: int| 0 <= i < a.len() && a[i].path == p;
        assert((a + b)[i].path == p);
    }
    if has_line(b, p) {
        let i = choose|i: int| 0 <= i < b.len() && b[i].path == p;
        assert((a + b)[a.len() + i].path == p);
    }
}

/// A line of sequence child `i` appears among the lines of the children
/// from `klo` on.
proof fn lemma_seq_child_line(
    items: Vec<Value>,
    klo: int,
    i: int,
    pm: Seq<SegModel>,
    es: Set<Seq<SegModel>>,
    d: Seq<(Seq<SegModel>, DiffKind)>,
    inh: DiffKind,
    depth: int,
    width: int,
    p: Seq<SegModel>,
)
    requires
        0 <= klo <= i < items@.len(),
        has_line(
            render_node(
                dec_digits(i),
                items@[i],
                pm.push(SegModel::Index(i)),
                es,
                d,
                inh,
                depth + 1,
                width,
            ),
            p,
        ),
    ensures
        has_line(render_seq_children(items, klo, pm, es, d, inh, depth, width), p),
    decreases i - klo,
{
    lemma_has_line_concat(
        render_node(
            dec_digits(klo),
            items@[klo],
            pm.push(SegModel::Index(klo)),
            es,
            d,
            inh,
            depth + 1,
            width,
        ),
        render_seq_children(items, klo + 1, pm, es, d, inh, depth, width),
        p,
    );
    if klo < i {
        lemma_seq_child_line(items, klo + 1, i, pm, es, d, inh, depth, width, p);
    }
}

/// A line of mapping child `i` appears among the lines of the children from
/// `klo` on.
proof fn lemma_map_child_line(
    entries: Vec<(String, Value)>,
    klo: int,
    i: int,
    pm: Seq<SegModel>,
    es: Set<Seq<SegModel>>,
    d: Seq<(Seq<SegModel>, DiffKind)>,
    inh: DiffKind,
    depth: int,
    width: int,
    p: Seq<SegModel>,
)
    requires
        0 <= klo <= i < entries@.len(),
        has_line(render_entry(entries@[i], pm, es, d, inh, depth, width), p),
    ensures
        has_line(render_map_children(entries, klo, pm, es, d, inh, depth, width), p),
    decreases i - klo,
{
    lemma_has_line_concat(
        render_entry(entries@[klo], pm, es, d, inh, depth, width),
        render_map_children(entries, klo + 1, pm, es, d, inh, depth, width),
        p,
    );
    if klo < i {
        lemma_map_child_line(entries, klo + 1, i, pm, es, d, inh, depth, width, p);
    }
}

/// A line of top-level entry `i` appears among the snapshot lines from
/// `klo` on.
proof fn lemma_snap_child_line(
    values: Vec<(String, Value)>,
    klo: int,
    i: int,
    es: Set<Seq<SegModel>>,
    d: Seq<(Seq<SegModel>, DiffKind)>,
    width: int,
    p: Seq<SegModel>,
)
    requires
        0 <= klo <= i < values@.len(),
        has_line(
            render_node(
                values@[i].0@,
                values@[i].1,
                seq![SegModel::Key(values@[i].0@)],
                es,
                d,
                DiffKind::Unchanged,
                0,
                width,
            ),
            p,
        ),
    ensures
        has_line(render_snapshot(values, klo, es, d, width), p),
    decreases i - klo,
{
    lemma_has_line_concat(
        render_node(
            values@[klo].0@,
            values@[klo].1,
            seq![SegModel::Key(values@[klo].0@)],
            es,
            d,
            DiffKind::Unchanged,
            0,
            width,
        ),
        render_snapshot(values, klo + 1, es, d, width),
        p,
    );
    if klo < i {
        lemma_snap_child_line(values, klo + 1, i, es, d, width, p);
    }
}

/// A node that exists below `pm`, with every path between `pm` and the node
/// expanded, gets a line of its own.
pub proof fn lemma_render_reaches(
    label: Seq<char>,
    v: Value,
    pm: Seq<SegModel>,
    es: Set<Seq<SegModel>>,
    d: Seq<(Seq<SegModel>, DiffKind)>,
    inh: DiffKind,
    depth: int,
    width: int,
    rest: Seq<SegModel>,
)
    requires
        value_at(v, rest) is Some,
        forall|j: int| 0 <= j < rest.len() ==> es.contains(#[trigger] (pm + rest.take(j))),
    ensures
        has_line(render_node(label, v, pm, es, d, inh, depth, width), pm + rest),
    decreases rest.len(),
{
    let lines = render_node(label, v, pm, es, d, inh, depth, width);
    let eff = effective_diff(inh, d, pm);
    let expanded = spec_expandable(v) && es.contains(pm);
    if rest.len() == 0 {
        assert(pm + rest =~= pm);
        assert(lines[0].path == pm);
    } else {
        let s = rest[0];
        let rest2 = rest.drop_first();
        assert(child_of(v, s) is Some);
        assert(es.contains(pm)) by {
            assert(pm + rest.take(0) =~= pm);
        }
        let cv = child_of(v, s).unwrap();
        assert(value_at(cv, rest2) is Some);
        match v {
            Value::Sequence(items) => {
                let i = s->Index_0;
                assert(0 <= i < items@.len());
                assert(cv == items@[i]);
                let cp = pm.push(SegModel::Index(i));
                assert forall|j: int|
                    0 <= j < rest2.len() implies es.contains(#[trigger] (cp + rest2.take(j))) by {
                    assert(cp + rest2.take(j) =~= pm + rest.take(j + 1));
                }
                lemma_render_reaches(
                    dec_digits(i),
                    cv,
                    cp,
                    es,
                    d,
                    pass_down(eff),
                    depth + 1,
                    width,
                    rest2,
                );
                assert(cp + rest2 =~= pm + rest);
                lemma_seq_child_line(
                    items,
                    0,
                    i,
                    pm,
                    es,
                    d,
                    pass_down(eff),
                    depth,
                    width,
                    pm + rest,
                );
                lemma_has_line_concat(
                    seq![lines[0]],
                    render_seq_children(items, 0, pm, es, d, pass_down(eff), depth, width),
                    pm + rest,
                );
                assert(lines =~= seq![lines[0]] + render_seq_children(
                    items,
                    0,
                    pm,
                    es,
                    d,
                    pass_down(eff),
                    depth,
                    width,
                ));
            },
            Value::Mapping(entries) => {
                let key = s->Key_0;
                assert(entries_lookup(entries@, key) is Some);
                lemma_lookup_witness(entries@, key);
                let jj = choose|jj: int|
                    0 <= jj < entries@.len() && (#[trigger] entries@[jj]).0@ == key
                        && entries@[jj].1 == entries_lookup(entries@, key).unwrap();
                assert(cv == entries@[jj].1);
                let cp = pm.push(SegModel::Key(key));
                assert forall|j: int|
                    0 <= j < rest2.len() implies es.contains(#[trigger] (cp + rest2.take(j))) by {
                    assert(cp + rest2.take(j) =~= pm + rest.take(j + 1));
                }
                lemma_render_reaches(
                    entries@[jj].0@,
                    cv,
                    cp,
                    es,
                    d,
                    pass_down(eff),
                    depth + 1,
                    width,
                    rest2,
                );
                assert(cp + rest2 =~= pm + rest);
                lemma_map_child_line(
                    entries,
                    0,
                    jj,
                    pm,
                    es,
                    d,
                    pass_down(eff),
                    depth,
                    width,
                    pm + rest,
                );
                lemma_has_line_concat(
                    seq![lines[0]],
                    render_map_children(entries, 0, pm, es, d, pass_down(eff), depth, width),
                    pm + rest,
                );
                assert(lines =~= seq![lines[0]] + render_map_children(
                    entries,
                    0,
                    pm,
                    es,
                    d,
                    pass_down(eff),
                    depth,
                    width,
                ));
            },
            Value::Scalar(_) => {
                assert(false);
            },
        }
    }
}

/// A node that exists in the snapshot, with every strict ancestor expanded,
/// gets a line of its own in the materialized list.
pub proof fn lemma_snapshot_reaches(
    values: Vec<(String, Value)>,
    es: Set<Seq<SegModel>>,
    d: Seq<(Seq<SegModel>, DiffKind)>,
    width: int,
    p: Seq<SegModel>,
)
    requires
        node_at(values@, p) is Some,
        forall|j: int| 1 <= j < p.len() ==> es.contains(#[trigger] p.take(j)),
    ensures
        has_line(render_snapshot(values, 0, es, d, width), p),
{
    assert(p.len() >= 1);
    match p[0] {
        SegModel::Key(name) => {
            assert(entries_lookup(values@, name) is Some);
            lemma_lookup_witness(values@, name);
            let jj = choose|jj: int|
                0 <= jj < values@.len() && (#[trigger] values@[jj]).0@ == name && values@[jj].1
                    == entries_lookup(values@, name).unwrap();
            let pm0 = seq![SegModel::Key(name)];
            let rest = p.drop_first();
            assert(value_at(values@[jj].1, rest) is Some);
            assert forall|j: int|
                0 <= j < rest.len() implies es.contains(#[trigger] (pm0 + rest.take(j))) by {
                assert(pm0 + rest.take(j) =~= p.take(j + 1));
            }
            lemma_render_reaches(
                values@[jj].0@,
                values@[jj].1,
                pm0,
                es,
                d,
                DiffKind::Unchanged,
                0,
                width,
                rest,
            );
            assert(pm0 + rest =~= p);
            lemma_snap_child_line(values, 0, jj, es, d, width, p);
        },
        SegModel::Index(_) => {
            assert(false);
        },
    }
}

} // verus!
