//! Pretty-printer for Haskell `Show` output.
//!
//! Parses bracketed structures (records, lists, tuples, parens) into a tree
//! and re-emits them with indentation when the inline form would exceed the
//! width budget. Strings are opaque atoms, so quoted brackets and commas do
//! not confuse the parser.
//!
//! Widths are counted in UTF-8 bytes. Columns are kept in a `usize` that
//! stops at `usize::MAX` instead of overflowing.
use vstd::prelude::*;
use vstd::utf8::encode_utf8;

use crate::text::{chars_of, rfind_char, rfind_char_v, slice, string_of, trim, trim_v};

verus! {

/// The width a line may take before a group is broken over several lines.
pub const TARGET_WIDTH: usize = 60;

/// A parsed value: an atom of text, or a bracketed group of comma-separated
/// items, each item a run of nodes.
pub enum Node {
    Atom(String),
    Group { open: char, close: char, items: Vec<Vec<Node>> },
}

/// The mathematical form of a node.
pub enum Tree {
    Atom(Seq<char>),
    Group(char, char, Seq<Seq<Tree>>),
}

pub open spec fn tree_of(n: Node) -> Tree
    decreases n,
{
    match n {
        Node::Atom(s) => Tree::Atom(s@),
        Node::Group { open, close, items } => Tree::Group(
            open,
            close,
            Seq::new(
                items@.len(),
                |i: int|
                    Seq::new(
                        items@[i]@.len(),
                        |j: int|
                            if 0 <= i < items@.len() && 0 <= j < items@[i]@.len() {
                                tree_of(items@[i]@[j])
                            } else {
                                Tree::Atom(seq![])
                            },
                    ),
            ),
        ),
    }
}

/// The trees of a run of nodes.
pub open spec fn trees_of(v: Seq<Node>) -> Seq<Tree> {
    Seq::new(v.len(), |j: int| tree_of(v[j]))
}

/// A group's tree holds the trees of its items.
pub proof fn lemma_tree_of_group(n: Node)
    requires
        n is Group,
    ensures
        tree_of(n) is Group,
        tree_of(n)->2.len() == (n->items)@.len(),
        forall|i: int|
            0 <= i < (n->items)@.len() ==> #[trigger] tree_of(n)->2[i] == trees_of(
                (n->items)@[i]@,
            ),
{
    let items = n->items;
    assert forall|i: int| 0 <= i < items@.len() implies #[trigger] tree_of(n)->2[i] == trees_of(
        items@[i]@,
    ) by {
        assert(tree_of(n)->2[i] =~= trees_of(items@[i]@));
    }
}

// ---------------------------------------------------------------------------
// Inline form
// ---------------------------------------------------------------------------

/// A tree on one line: items joined by `, `, nodes of an item by spaces.
pub open spec fn inline_t(t: Tree) -> Seq<char>
    decreases t, 0int,
{
    match t {
        Tree::Atom(s) => s,
        Tree::Group(o, c, items) => if items.len() == 0 {
            seq![o, c]
        } else {
            seq![o] + inline_items(items, items.len() as int) + seq![c]
        },
    }
}

/// The first `k` items on one line, joined by `, `.
pub open spec fn inline_items(items: Seq<Seq<Tree>>, k: int) -> Seq<char>
    decreases items, k,
{
    if k <= 0 || k > items.len() {
        seq![]
    } else if k == 1 {
        inline_item(items[0], items[0].len() as int)
    } else {
        inline_items(items, k - 1) + seq![',', ' '] + inline_item(
            items[k - 1],
            items[k - 1].len() as int,
        )
    }
}

/// The first `k` nodes of an item on one line, joined by spaces.
pub open spec fn inline_item(item: Seq<Tree>, k: int) -> Seq<char>
    decreases item, k,
{
    if k <= 0 || k > item.len() {
        seq![]
    } else if k == 1 {
        inline_t(item[0])
    } else {
        inline_item(item, k - 1) + seq![' '] + inline_t(item[k - 1])
    }
}

/// The inline form of a node.
fn inline(node: &Node) -> (r: Vec<char>)
    ensures
        r@ == inline_t(tree_of(*node)),
    decreases *node,
{
    match node {
        Node::Atom(s) => chars_of(s.as_str()),
        Node::Group { open, close, items } => {
            proof {
                lemma_tree_of_group(*node);
            }
            let ghost ti = tree_of(*node)->2;
            let mut r: Vec<char> = Vec::new();
            r.push(*open);
            if items.len() == 0 {
                r.push(*close);
                return r;
            }
            let mut i: usize = 0;
            while i < items.len()
                invariant
                    *node == (Node::Group { open: *open, close: *close, items: *items }),
                    0 < items@.len(),
                    i <= items@.len(),
                    ti.len() == items@.len(),
                    forall|k: int| 0 <= k < items@.len() ==> #[trigger] ti[k] == trees_of(items@[k]@),
                    r@ == seq![*open] + inline_items(ti, i as int),
                decreases items.len() - i,
            {
                let item = &items[i];
                let ghost base = if i > 0 {
                    seq![*open] + inline_items(ti, i as int) + seq![',', ' ']
                } else {
                    seq![*open]
                };
                if i > 0 {
                    r.push(',');
                    r.push(' ');
                }
                assert(r@ =~= base + inline_item(ti[i as int], 0));
                let mut j: usize = 0;
                while j < item.len()
                    invariant
                        *node == (Node::Group { open: *open, close: *close, items: *items }),
                        i < items@.len(),
                        *item == items@[i as int],
                        ti[i as int] == trees_of(item@),
                        j <= item@.len(),
                        r@ == base + inline_item(ti[i as int], j as int),
                    decreases item.len() - j,
                {
                    let ghost before = r@;
                    if j > 0 {
                        r.push(' ');
                    }
                    proof {
                        assert(decreases_to!(*node => (*node)->items));
                        assert(decreases_to!(*items => items@));
                        assert(decreases_to!(items@ => items@[i as int]));
                        assert(decreases_to!(items@[i as int] => items@[i as int]@));
                        assert(decreases_to!(items@[i as int]@ => items@[i as int]@[j as int]));
                    }
                    let x = inline(&item[j]);
                    crate::text::extend(&mut r, &x);
                    assert(ti[i as int][j as int] == tree_of(item@[j as int]));
                    if j > 0 {
                        assert(r@ =~= before + seq![' '] + inline_t(ti[i as int][j as int]));
                    } else {
                        assert(r@ =~= before + inline_t(ti[i as int][j as int]));
                    }
                    j = j + 1;
                }
                assert(ti[i as int].len() == item@.len());
                i = i + 1;
            }
            r.push(*close);
            r
        },
    }
}

// ---------------------------------------------------------------------------
// Widths
// ---------------------------------------------------------------------------

/// The width of a text: its length in UTF-8 bytes.
pub open spec fn width(s: Seq<char>) -> int {
    encode_utf8(s).len() as int
}

/// `x`, or `usize::MAX` if it is larger.
pub open spec fn sat(x: int) -> int {
    if x > usize::MAX {
        usize::MAX as int
    } else {
        x
    }
}

pub(crate) fn char_width(c: char) -> (r: usize)
    ensures
        r == vstd::utf8::encode_scalar(c as u32).len(),
{
    let u = c as u32;
    if u <= 0x7F {
        1
    } else if u <= 0x7FF {
        2
    } else if u <= 0xFFFF {
        3
    } else {
        4
    }
}

/// The width of `v`, or `usize::MAX` if it is larger.
pub(crate) fn width_of(v: &Vec<char>) -> (r: usize)
    ensures
        r == sat(width(v@)),
{
    let n = v.len();
    let mut i: usize = n;
    let mut acc: usize = 0;
    assert(v@.skip(n as int) =~= Seq::<char>::empty());
    while i > 0
        invariant
            i <= n,
            n == v@.len(),
            acc == sat(width(v@.skip(i as int))),
        decreases i,
    {
        let w = char_width(v[i - 1]);
        assert(v@.skip(i - 1).drop_first() =~= v@.skip(i as int));
        assert(v@.skip(i - 1)[0] == v@[i - 1]);
        acc = if acc > usize::MAX - w {
            usize::MAX
        } else {
            acc + w
        };
        i = i - 1;
    }
    assert(v@.skip(0) =~= v@);
    acc
}

fn add_sat(a: usize, b: usize) -> (r: usize)
    ensures
        r == sat(a + b),
{
    if a > usize::MAX - b {
        usize::MAX
    } else {
        a + b
    }
}

/// `n` spaces.
pub open spec fn spaces(n: int) -> Seq<char> {
    Seq::new(n as nat, |i: int| ' ')
}

pub(crate) fn push_spaces(r: &mut Vec<char>, n: usize)
    ensures
        final(r)@ == old(r)@ + spaces(n as int),
{
    let mut i: usize = 0;
    while i < n
        invariant
            i <= n,
            r@ == old(r)@ + spaces(i as int),
        decreases n - i,
    {
        r.push(' ');
        assert(spaces(i + 1) =~= spaces(i as int).push(' '));
        i = i + 1;
    }
}

// ---------------------------------------------------------------------------
// Layout
// ---------------------------------------------------------------------------

/// Groups whose items are all atoms.
pub open spec fn is_flat_t(items: Seq<Seq<Tree>>) -> bool {
    forall|i: int, j: int| 0 <= i < items.len() && 0 <= j < items[i].len() ==> (#[trigger] items[i][j]) is Atom
}

/// A tree laid out from column `col`: inline when it fits in the width
/// budget; otherwise a group is broken with one item per line, the commas
/// and the closing bracket under the opening one. Flat lists and tuples stay
/// inline, and a group of one item keeps its brackets tight.
pub open spec fn render_node_t(t: Tree, col: int) -> Seq<char>
    decreases t, 0int,
{
    let il = inline_t(t);
    if col + width(il) <= TARGET_WIDTH {
        il
    } else {
        match t {
            Tree::Atom(s) => s,
            Tree::Group(o, c, items) => if items.len() == 0 {
                seq![o, c]
            } else if (o == '[' || o == '(') && is_flat_t(items) {
                il
            } else if items.len() == 1 {
                seq![o] + render_seq_t(items[0], sat(col + 1)) + seq![c]
            } else {
                seq![o, ' '] + render_items_t(items, col, items.len() as int) + seq!['\n'] + spaces(
                    col,
                ) + seq![c]
            },
        }
    }
}

/// The first `k` items of a broken group opened at column `col`.
pub open spec fn render_items_t(items: Seq<Seq<Tree>>, col: int, k: int) -> Seq<char>
    decreases items, k,
{
    if k <= 0 || k > items.len() {
        seq![]
    } else if k == 1 {
        render_seq_t(items[0], sat(col + 2))
    } else {
        render_items_t(items, col, k - 1) + seq!['\n'] + spaces(col) + seq![',', ' '] + render_seq_t(
            items[k - 1],
            sat(col + 2),
        )
    }
}

/// A run of nodes laid out from column `col`, separated by spaces.
pub open spec fn render_seq_t(nodes: Seq<Tree>, col: int) -> Seq<char>
    decreases nodes, nodes.len() + 1,
{
    seq_state(nodes, col, nodes.len() as int).0
}

/// The column after `r` when it was placed at column `col`.
pub open spec fn column_after(r: Seq<char>, col: int) -> int {
    match rfind_char(r, '\n') {
        Some(nl) => sat(width(r.skip(nl + 1))),
        None => sat(col + width(r)),
    }
}

/// The first `k` nodes of a run laid out from column `col`, and the column
/// where they end.
pub open spec fn seq_state(nodes: Seq<Tree>, col: int, k: int) -> (Seq<char>, int)
    decreases nodes, k,
{
    if k <= 0 || k > nodes.len() {
        (seq![], col)
    } else {
        let prev = seq_state(nodes, col, k - 1);
        let cur = if k > 1 { sat(prev.1 + 1) } else { prev.1 };
        let r = render_node_t(nodes[k - 1], cur);
        (prev.0 + (if k > 1 { seq![' '] } else { seq![] }) + r, column_after(r, cur))
    }
}

proof fn lemma_tree_of_atom(n: Node)
    ensures
        (tree_of(n) is Atom) == (n is Atom),
{
}

/// Every item holds atoms only.
fn is_flat(items: &Vec<Vec<Node>>, ti: Ghost<Seq<Seq<Tree>>>) -> (r: bool)
    requires
        ti@.len() == items@.len(),
        forall|k: int| 0 <= k < items@.len() ==> #[trigger] ti@[k] == trees_of(items@[k]@),
    ensures
        r == is_flat_t(ti@),
{
    let mut i: usize = 0;
    while i < items.len()
        invariant
            i <= items@.len(),
            ti@.len() == items@.len(),
            forall|k: int| 0 <= k < items@.len() ==> #[trigger] ti@[k] == trees_of(items@[k]@),
            forall|a: int, b: int|
                0 <= a < i && 0 <= b < ti@[a].len() ==> (#[trigger] ti@[a][b]) is Atom,
        decreases items.len() - i,
    {
        let item = &items[i];
        let mut j: usize = 0;
        while j < item.len()
            invariant
                i < items@.len(),
                *item == items@[i as int],
                j <= item@.len(),
                ti@.len() == items@.len(),
                forall|k: int| 0 <= k < items@.len() ==> #[trigger] ti@[k] == trees_of(items@[k]@),
                forall|a: int, b: int|
                    0 <= a < i && 0 <= b < ti@[a].len() ==> (#[trigger] ti@[a][b]) is Atom,
                forall|b: int| 0 <= b < j ==> (#[trigger] ti@[i as int][b]) is Atom,
            decreases item.len() - j,
        {
            proof {
                lemma_tree_of_atom(item@[j as int]);
                assert(ti@[i as int] == trees_of(items@[i as int]@));
                assert(ti@[i as int][j as int] == tree_of(item@[j as int]));
            }
            match &item[j] {
                Node::Atom(_) => {},
                Node::Group { .. } => {
                    return false;
                },
            }
            j = j + 1;
        }
        assert(ti@[i as int].len() == item@.len());
        i = i + 1;
    }
    true
}

/// A node laid out from column `col`.
fn render_node(node: &Node, col: usize) -> (r: Vec<char>)
    ensures
        r@ == render_node_t(tree_of(*node), col as int),
    decreases *node, 0nat,
{
    let il = inline(node);
    let w = width_of(&il);
    if col <= TARGET_WIDTH && w <= TARGET_WIDTH - col {
        return il;
    }
    match node {
        Node::Atom(s) => chars_of(s.as_str()),
        Node::Group { open, close, items } => {
            proof {
                lemma_tree_of_group(*node);
            }
            let ghost ti = tree_of(*node)->2;
            let mut r: Vec<char> = Vec::new();
            r.push(*open);
            if items.len() == 0 {
                r.push(*close);
                return r;
            }
            if (*open == '[' || *open == '(') && is_flat(items, Ghost(ti)) {
                return il;
            }
            if items.len() == 1 {
                proof {
                    assert(decreases_to!(*node => (*node)->items));
                    assert(decreases_to!(*items => items@));
                    assert(decreases_to!(items@ => items@[0]));
                }
                let inner = render_seq(&items[0], add_sat(col, 1));
                crate::text::extend(&mut r, &inner);
                r.push(*close);
                return r;
            }
            r.push(' ');
            let item_col = add_sat(col, 2);
            let mut i: usize = 0;
            assert(r@ =~= seq![*open, ' '] + render_items_t(ti, col as int, 0));
            while i < items.len()
                invariant
                    *node == (Node::Group { open: *open, close: *close, items: *items }),
                    1 < items@.len(),
                    i <= items@.len(),
                    ti.len() == items@.len(),
                    forall|k: int| 0 <= k < items@.len() ==> #[trigger] ti[k] == trees_of(items@[k]@),
                    item_col == sat(col + 2),
                    r@ == seq![*open, ' '] + render_items_t(ti, col as int, i as int),
                decreases items.len() - i,
            {
                let ghost before = r@;
                if i > 0 {
                    r.push('\n');
                    push_spaces(&mut r, col);
                    r.push(',');
                    r.push(' ');
                }
                proof {
                    assert(decreases_to!(*node => (*node)->items));
                    assert(decreases_to!(*items => items@));
                    assert(decreases_to!(items@ => items@[i as int]));
                }
                let part = render_seq(&items[i], item_col);
                crate::text::extend(&mut r, &part);
                if i > 0 {
                    assert(r@ =~= before + seq!['\n'] + spaces(col as int) + seq![',', ' '] + render_seq_t(
                        ti[i as int],
                        sat(col + 2),
                    ));
                } else {
                    assert(r@ =~= before + render_seq_t(ti[i as int], sat(col + 2)));
                }
                i = i + 1;
            }
            r.push('\n');
            push_spaces(&mut r, col);
            r.push(*close);
            r
        },
    }
}

/// A run of nodes laid out from column `col`, separated by spaces.
fn render_seq(nodes: &Vec<Node>, col: usize) -> (r: Vec<char>)
    ensures
        r@ == render_seq_t(trees_of(nodes@), col as int),
    decreases *nodes, 1nat,
{
    let ghost ts = trees_of(nodes@);
    let mut out: Vec<char> = Vec::new();
    let mut cur = col;
    let mut k: usize = 0;
    while k < nodes.len()
        invariant
            k <= nodes@.len(),
            ts == trees_of(nodes@),
            out@ == seq_state(ts, col as int, k as int).0,
            cur as int == seq_state(ts, col as int, k as int).1,
        decreases nodes.len() - k,
    {
        let ghost before = out@;
        if k > 0 {
            out.push(' ');
            cur = add_sat(cur, 1);
        }
        proof {
            assert(decreases_to!(*nodes => nodes@));
            assert(decreases_to!(nodes@ => nodes@[k as int]));
        }
        let r = render_node(&nodes[k], cur);
        assert(ts[k as int] == tree_of(nodes@[k as int]));
        let n = r.len();
        cur = match rfind_char_v(&r, '\n') {
            Some(nl) => {
                let tail = slice(&r, nl + 1, n);
                assert(tail@ =~= r@.skip(nl + 1));
                width_of(&tail)
            },
            None => add_sat(cur, width_of(&r)),
        };
        crate::text::extend(&mut out, &r);
        if k > 0 {
            assert(out@ =~= before + seq![' '] + r@);
        } else {
            assert(out@ =~= before + r@);
        }
        k = k + 1;
    }
    out
}

// ---------------------------------------------------------------------------
// Parsing
// ---------------------------------------------------------------------------

/// The parser's position relative to string literals.
#[derive(Clone, Copy, PartialEq, Eq)]
pub enum Mode {
    Normal,
    /// Inside a string literal.
    Quoted,
    /// Right after a backslash inside a string literal.
    Escaped,
}

/// An open bracket being read: the items finished so far, the nodes of the
/// current item, and the text of the atom being read.
pub struct PFrame {
    pub open: char,
    pub items: Seq<Seq<Tree>>,
    pub current: Seq<Tree>,
    pub atom: Seq<char>,
}

pub open spec fn new_frame(open: char) -> PFrame {
    PFrame { open, items: seq![], current: seq![], atom: seq![] }
}

/// The atom read so far, trimmed, joins the current item unless it is blank.
pub open spec fn flush_atom_t(f: PFrame) -> PFrame {
    let t = trim(f.atom);
    PFrame {
        current: if t.len() > 0 {
            f.current.push(Tree::Atom(t))
        } else {
            f.current
        },
        atom: seq![],
        ..f
    }
}

/// The current item is finished (an empty group gets no item).
pub open spec fn finish_item_t(f: PFrame) -> PFrame {
    let g = flush_atom_t(f);
    if g.current.len() > 0 || g.items.len() > 0 {
        PFrame { items: g.items.push(g.current), current: seq![], ..g }
    } else {
        g
    }
}

pub open spec fn set_top(fs: Seq<PFrame>, f: PFrame) -> Seq<PFrame> {
    fs.drop_last().push(f)
}

pub open spec fn with_char(f: PFrame, ch: char) -> PFrame {
    PFrame { atom: f.atom.push(ch), ..f }
}

pub open spec fn is_opener(ch: char) -> bool {
    ch == '(' || ch == '[' || ch == '{'
}

pub open spec fn is_closer(ch: char) -> bool {
    ch == ')' || ch == ']' || ch == '}'
}

/// One character of input. `None` when a closing bracket has no open
/// group to close.
pub open spec fn parse_step(fs: Seq<PFrame>, m: Mode, ch: char) -> Option<(Seq<PFrame>, Mode)> {
    let top = fs.last();
    match m {
        Mode::Quoted => Some(
            (
                set_top(fs, with_char(top, ch)),
                if ch == '\\' {
                    Mode::Escaped
                } else if ch == '"' {
                    Mode::Normal
                } else {
                    Mode::Quoted
                },
            ),
        ),
        Mode::Escaped => Some((set_top(fs, with_char(top, ch)), Mode::Quoted)),
        Mode::Normal => if ch == '"' {
            Some((set_top(fs, with_char(top, ch)), Mode::Quoted))
        } else if is_opener(ch) {
            Some((set_top(fs, flush_atom_t(top)).push(new_frame(ch)), Mode::Normal))
        } else if is_closer(ch) {
            let closed = finish_item_t(top);
            let rest = fs.drop_last();
            if rest.len() == 0 {
                None
            } else {
                let p = rest.last();
                Some(
                    (
                        set_top(
                            rest,
                            PFrame {
                                current: p.current.push(Tree::Group(closed.open, ch, closed.items)),
                                ..p
                            },
                        ),
                        Mode::Normal,
                    ),
                )
            }
        } else if ch == ',' {
            let g = flush_atom_t(top);
            Some((set_top(fs, PFrame { items: g.items.push(g.current), current: seq![], ..g }), Mode::Normal))
        } else {
            Some((set_top(fs, with_char(top, ch)), Mode::Normal))
        },
    }
}

/// The parser state after the characters of `s` from `i` on.
pub open spec fn parse_run(s: Seq<char>, i: int, fs: Seq<PFrame>, m: Mode) -> Option<(Seq<PFrame>, Mode)>
    decreases s.len() - i,
{
    if i < 0 || i >= s.len() {
        Some((fs, m))
    } else {
        match parse_step(fs, m, s[i]) {
            Some(next) => parse_run(s, i + 1, next.0, next.1),
            None => None,
        }
    }
}

pub open spec fn parse_start() -> Seq<PFrame> {
    seq![new_frame('\0')]
}

/// Every closing bracket (outside strings) has an open group to close.
pub open spec fn parse_ok(s: Seq<char>) -> bool {
    parse_run(s, 0, parse_start(), Mode::Normal) is Some
}

/// All items of a group, one after another.
pub open spec fn flatten_t(items: Seq<Seq<Tree>>) -> Seq<Tree>
    decreases items.len(),
{
    if items.len() == 0 {
        seq![]
    } else {
        items[0] + flatten_t(items.drop_first())
    }
}

/// The nodes of `s`: the frame left open last is finished, and its items
/// are the result (groups still open at the end are not closed).
pub open spec fn parse_t(s: Seq<char>) -> Seq<Tree> {
    let fs = (parse_run(s, 0, parse_start(), Mode::Normal)->0).0;
    flatten_t(finish_item_t(fs.last()).items)
}

/// The pretty-printed form of GHC's `Show` output.
pub open spec fn pretty_t(s: Seq<char>) -> Seq<char> {
    render_seq_t(parse_t(s), 0)
}

/// A step keeps at least one frame.
proof fn lemma_parse_run_frames(s: Seq<char>, i: int, fs: Seq<PFrame>, m: Mode)
    requires
        fs.len() > 0,
    ensures
        parse_run(s, i, fs, m) matches Some(r) ==> r.0.len() > 0,
    decreases s.len() - i,
{
    if 0 <= i < s.len() {
        match parse_step(fs, m, s[i]) {
            Some(next) => lemma_parse_run_frames(s, i + 1, next.0, next.1),
            None => {},
        }
    }
}

/// The items of a group as trees.
pub open spec fn items_trees(items: Seq<Vec<Node>>) -> Seq<Seq<Tree>> {
    Seq::new(items.len(), |i: int| trees_of(items[i]@))
}

/// A frame being read by the parser.
pub struct Frame {
    pub open: char,
    pub items: Vec<Vec<Node>>,
    pub current: Vec<Node>,
    pub atom: Vec<char>,
}

impl View for Frame {
    type V = PFrame;

    open spec fn view(&self) -> PFrame {
        PFrame {
            open: self.open,
            items: items_trees(self.items@),
            current: trees_of(self.current@),
            atom: self.atom@,
        }
    }
}

pub open spec fn frames_view(fs: Seq<Frame>) -> Seq<PFrame> {
    fs.map_values(|f: Frame| f@)
}

proof fn lemma_group_tree(open: char, close: char, items: Vec<Vec<Node>>)
    ensures
        tree_of(Node::Group { open, close, items }) == Tree::Group(open, close, items_trees(items@)),
{
    let n = Node::Group { open, close, items };
    lemma_tree_of_group(n);
    assert(tree_of(n)->2 =~= items_trees(items@));
}

impl Frame {
    pub fn new(open: char) -> (f: Frame)
        ensures
            f@ == new_frame(open),
    {
        let f = Frame { open, items: Vec::new(), current: Vec::new(), atom: Vec::new() };
        assert(f@.items =~= Seq::<Seq<Tree>>::empty());
        assert(f@.current =~= Seq::<Tree>::empty());
        f
    }

    /// The atom read so far joins the current item unless it is blank.
    pub fn flush_atom(&mut self)
        ensures
            final(self)@ == flush_atom_t(old(self)@),
    {
        let t = trim_v(&self.atom);
        if t.len() > 0 {
            let ghost before = self.current@;
            self.current.push(Node::Atom(string_of(&t)));
            assert(trees_of(self.current@) =~= trees_of(before).push(Tree::Atom(t@)));
        }
        self.atom = Vec::new();
        assert(self@.atom =~= Seq::<char>::empty());
    }

    /// Finishes the current item.
    pub fn finish_item(&mut self)
        ensures
            final(self)@ == finish_item_t(old(self)@),
    {
        self.flush_atom();
        if self.current.len() > 0 || self.items.len() > 0 {
            let ghost before = self@;
            let mut item: Vec<Node> = Vec::new();
            std::mem::swap(&mut item, &mut self.current);
            self.items.push(item);
            assert(items_trees(self.items@) =~= before.items.push(before.current));
            assert(trees_of(self.current@) =~= Seq::<Tree>::empty());
        }
    }
}

/// The top-level nodes of GHC's `Show` output.
fn parse(input: &str) -> (r: Vec<Node>)
    requires
        parse_ok(input@),
    ensures
        trees_of(r@) == parse_t(input@),
{
    let s = chars_of(input);
    let mut frames: Vec<Frame> = Vec::new();
    frames.push(Frame::new('\0'));
    let mut mode = Mode::Normal;
    let mut i: usize = 0;
    assert(frames_view(frames@) =~= parse_start());
    while i < s.len()
        invariant
            i <= s@.len(),
            s@ == input@,
            frames@.len() > 0,
            parse_run(s@, i as int, frames_view(frames@), mode) == parse_run(
                s@,
                0,
                parse_start(),
                Mode::Normal,
            ),
            parse_ok(input@),
        decreases s.len() - i,
    {
        let ch = s[i];
        let ghost fv = frames_view(frames@);
        let ghost step = parse_step(fv, mode, ch);
        proof {
            lemma_parse_run_frames(s@, i + 1, fv, mode);
        }
        let mut top = frames.pop().unwrap();
        let ghost rest0 = frames@;
        assert(frames_view(rest0) =~= fv.drop_last());
        assert(top@ == fv.last());
        match mode {
            Mode::Quoted => {
                top.atom.push(ch);
                frames.push(top);
                mode = if ch == '\\' {
                    Mode::Escaped
                } else if ch == '"' {
                    Mode::Normal
                } else {
                    Mode::Quoted
                };
                assert(frames_view(frames@) =~= (step->0).0);
            },
            Mode::Escaped => {
                top.atom.push(ch);
                frames.push(top);
                mode = Mode::Quoted;
                assert(frames_view(frames@) =~= (step->0).0);
            },
            Mode::Normal => {
                if ch == '"' {
                    top.atom.push(ch);
                    frames.push(top);
                    mode = Mode::Quoted;
                    assert(frames_view(frames@) =~= (step->0).0);
                } else if ch == '(' || ch == '[' || ch == '{' {
                    top.flush_atom();
                    frames.push(top);
                    frames.push(Frame::new(ch));
                    assert(frames_view(frames@) =~= (step->0).0);
                } else if ch == ')' || ch == ']' || ch == '}' {
                    top.finish_item();
                    if frames.len() == 0 {
                        assert(step is None);
                        assert(false);
                        return Vec::new();
                    }
                    let mut parent = frames.pop().unwrap();
                    let ghost rest1 = frames@;
                    assert(frames_view(rest1) =~= fv.drop_last().drop_last());
                    let Frame { open, items, current: _, atom: _ } = top;
                    let ghost before = parent@;
                    let g = Node::Group { open, close: ch, items };
                    proof {
                        lemma_group_tree(open, ch, items);
                    }
                    let ghost gt = tree_of(g);
                    parent.current.push(g);
                    assert(trees_of(parent.current@) =~= before.current.push(gt));
                    frames.push(parent);
                    assert(frames_view(frames@) =~= (step->0).0);
                } else if ch == ',' {
                    top.flush_atom();
                    let ghost flushed = top@;
                    let mut item: Vec<Node> = Vec::new();
                    std::mem::swap(&mut item, &mut top.current);
                    top.items.push(item);
                    assert(items_trees(top.items@) =~= flushed.items.push(flushed.current));
                    assert(trees_of(top.current@) =~= Seq::<Tree>::empty());
                    frames.push(top);
                    assert(frames_view(frames@) =~= (step->0).0);
                } else {
                    top.atom.push(ch);
                    frames.push(top);
                    assert(frames_view(frames@) =~= (step->0).0);
                }
            },
        }
        i = i + 1;
    }
    let mut root = frames.pop().unwrap();
    root.finish_item();
    let mut items: Vec<Vec<Node>> = Vec::new();
    std::mem::swap(&mut items, &mut root.items);
    let ghost its = items_trees(items@);
    let mut out: Vec<Node> = Vec::new();
    assert(trees_of(out@) + flatten_t(items_trees(items@)) =~= flatten_t(its));
    while items.len() > 0
        invariant
            trees_of(out@) + flatten_t(items_trees(items@)) == flatten_t(its),
        decreases items@.len(),
    {
        let ghost before_items = items_trees(items@);
        let ghost before_out = trees_of(out@);
        let mut item = items.remove(0);
        assert(items_trees(items@) =~= before_items.drop_first());
        assert(trees_of(item@) == before_items[0]);
        out.append(&mut item);
        assert(trees_of(out@) =~= before_out + before_items[0]);
        assert(trees_of(out@) + flatten_t(items_trees(items@)) =~= before_out + flatten_t(before_items));
    }
    assert(flatten_t(items_trees(items@)) =~= Seq::<Tree>::empty());
    assert(trees_of(out@) =~= trees_of(out@) + flatten_t(items_trees(items@)));
    out
}

/// The mode after a character, and how the number of open groups changes;
/// `None` when a closing bracket finds only the outermost frame.
pub open spec fn depth_run(s: Seq<char>, i: int, d: int, m: Mode) -> bool
    decreases s.len() - i,
{
    if i < 0 || i >= s.len() {
        true
    } else {
        let ch = s[i];
        match m {
            Mode::Quoted => depth_run(
                s,
                i + 1,
                d,
                if ch == '\\' {
                    Mode::Escaped
                } else if ch == '"' {
                    Mode::Normal
                } else {
                    Mode::Quoted
                },
            ),
            Mode::Escaped => depth_run(s, i + 1, d, Mode::Quoted),
            Mode::Normal => if ch == '"' {
                depth_run(s, i + 1, d, Mode::Quoted)
            } else if is_opener(ch) {
                depth_run(s, i + 1, d + 1, Mode::Normal)
            } else if is_closer(ch) {
                d > 1 && depth_run(s, i + 1, d - 1, Mode::Normal)
            } else {
                depth_run(s, i + 1, d, Mode::Normal)
            },
        }
    }
}

/// Whether the parse goes through depends only on how many frames are open.
proof fn lemma_depth_run(s: Seq<char>, i: int, fs: Seq<PFrame>, m: Mode)
    requires
        fs.len() > 0,
        0 <= i,
    ensures
        (parse_run(s, i, fs, m) is Some) == depth_run(s, i, fs.len() as int, m),
    decreases s.len() - i,
{
    if i < s.len() {
        let ch = s[i];
        match parse_step(fs, m, ch) {
            Some(next) => {
                assert(next.0.len() > 0);
                lemma_depth_run(s, i + 1, next.0, next.1);
            },
            None => {},
        }
    }
}

/// Whether `pretty` can read `input`: every closing bracket outside a
/// string has an open group to close.
pub fn well_bracketed(input: &str) -> (r: bool)
    ensures
        r == parse_ok(input@),
{
    let s = chars_of(input);
    let n = s.len();
    let mut open: usize = 0;
    let mut mode = Mode::Normal;
    let mut i: usize = 0;
    proof {
        lemma_depth_run(s@, 0, parse_start(), Mode::Normal);
    }
    while i < n
        invariant
            i <= n,
            n == s@.len(),
            s@ == input@,
            open <= i,
            depth_run(s@, i as int, open + 1, mode) == parse_ok(input@),
        decreases n - i,
    {
        let ch = s[i];
        match mode {
            Mode::Quoted => {
                mode = if ch == '\\' {
                    Mode::Escaped
                } else if ch == '"' {
                    Mode::Normal
                } else {
                    Mode::Quoted
                };
            },
            Mode::Escaped => {
                mode = Mode::Quoted;
            },
            Mode::Normal => {
                if ch == '"' {
                    mode = Mode::Quoted;
                } else if ch == '(' || ch == '[' || ch == '{' {
                    open = open + 1;
                } else if ch == ')' || ch == ']' || ch == '}' {
                    if open == 0 {
                        return false;
                    }
                    open = open - 1;
                }
            },
        }
        i = i + 1;
    }
    true
}

/// Pretty-prints GHC's `Show` output: a value that fits in the width budget
/// stays on one line; records and nested structures that do not are broken
/// with one field or element per line. The input must not close a bracket
/// that it never opened.
pub fn pretty(input: &str) -> (r: String)
    requires
        parse_ok(input@),
    ensures
        r@ == pretty_t(input@),
{
    let nodes = parse(input);
    let r = render_seq(&nodes, 0);
    string_of(&r)
}

// ---------------------------------------------------------------------------
// What fits stays on one line
// ---------------------------------------------------------------------------

/// The width of two texts is the sum of their widths.
pub proof fn lemma_width_append(a: Seq<char>, b: Seq<char>)
    ensures
        width(a + b) == width(a) + width(b),
    decreases a.len(),
{
    if a.len() > 0 {
        lemma_width_append(a.drop_first(), b);
        assert((a + b).drop_first() =~= a.drop_first() + b);
        assert((a + b)[0] == a[0]);
        assert(encode_utf8(a + b) =~= vstd::utf8::encode_scalar(a[0] as u32) + encode_utf8(
            a.drop_first() + b,
        ));
        assert(encode_utf8(a) =~= vstd::utf8::encode_scalar(a[0] as u32) + encode_utf8(
            a.drop_first(),
        ));
    } else {
        assert(a + b =~= b);
    }
}

proof fn lemma_rfind_none(r: Seq<char>)
    requires
        !r.contains('\n'),
    ensures
        rfind_char(r, '\n') is None,
    decreases r.len(),
{
    if r.len() > 0 {
        assert(r.last() != '\n') by {
            if r.last() == '\n' {
                assert(r.contains(r[r.len() - 1]));
            }
        }
        assert(!r.drop_last().contains('\n')) by {
            if r.drop_last().contains('\n') {
                let j = choose|j: int| 0 <= j < r.drop_last().len() && r.drop_last()[j] == '\n';
                assert(r[j] == '\n');
            }
        }
        lemma_rfind_none(r.drop_last());
    }
}

/// The inline form of the first `k` nodes is a prefix of that of the first
/// `m`.
proof fn lemma_inline_item_prefix(nodes: Seq<Tree>, k: int, m: int)
    requires
        1 <= k <= m <= nodes.len(),
    ensures
        inline_item(nodes, m) == inline_item(nodes, k) + inline_item(nodes, m).skip(
            inline_item(nodes, k).len() as int,
        ),
        inline_item(nodes, k).len() <= inline_item(nodes, m).len(),
    decreases m - k,
{
    if k < m {
        lemma_inline_item_prefix(nodes, k, m - 1);
        let a = inline_item(nodes, k);
        let b = inline_item(nodes, m - 1);
        assert(inline_item(nodes, m) == b + seq![' '] + inline_t(nodes[m - 1]));
        assert(inline_item(nodes, m) =~= a + inline_item(nodes, m).skip(a.len() as int));
    } else {
        assert(inline_item(nodes, m).skip(inline_item(nodes, m).len() as int) =~= Seq::<
            char,
        >::empty());
        assert(inline_item(nodes, m) =~= inline_item(nodes, m) + Seq::<char>::empty());
    }
}

proof fn lemma_fitting_state(nodes: Seq<Tree>, col: int, k: int)
    requires
        0 <= col,
        1 <= k <= nodes.len(),
        col + width(inline_item(nodes, nodes.len() as int)) <= TARGET_WIDTH,
        !inline_item(nodes, nodes.len() as int).contains('\n'),
    ensures
        seq_state(nodes, col, k) == (inline_item(nodes, k), col + width(inline_item(nodes, k))),
    decreases k,
{
    let n = nodes.len() as int;
    let whole = inline_item(nodes, n);
    lemma_inline_item_prefix(nodes, k, n);
    let cur_text = inline_item(nodes, k);
    lemma_width_append(cur_text, whole.skip(cur_text.len() as int));
    assert(!cur_text.contains('\n')) by {
        if cur_text.contains('\n') {
            let j = choose|j: int| 0 <= j < cur_text.len() && cur_text[j] == '\n';
            assert(whole[j] == '\n');
        }
    }
    let node = nodes[k - 1];
    let il = inline_t(node);
    if k == 1 {
        assert(seq_state(nodes, col, 0) == (Seq::<char>::empty(), col));
        assert(cur_text == il);
        assert(render_node_t(node, col) == il);
        lemma_rfind_none(il);
        assert(seq_state(nodes, col, 1).0 =~= il);
    } else {
        lemma_fitting_state(nodes, col, k - 1);
        let prev_text = inline_item(nodes, k - 1);
        assert(cur_text == prev_text + seq![' '] + il);
        lemma_width_append(prev_text + seq![' '], il);
        lemma_width_append(prev_text, seq![' ']);
        assert(width(seq![' ']) == 1) by {
            let sp = seq![' '];
            assert(sp.drop_first() =~= Seq::<char>::empty());
            assert(encode_utf8(sp.drop_first()) == Seq::<u8>::empty());
            assert(sp[0] == ' ');
            assert((' ' as u32) == 32);
            assert(vstd::utf8::encode_scalar(32u32).len() == 1);
            assert(encode_utf8(sp) == vstd::utf8::encode_scalar(sp[0] as u32) + encode_utf8(
                sp.drop_first(),
            ));
        }
        let cur = col + width(prev_text) + 1;
        assert(sat(col + width(prev_text) + 1) == cur);
        assert(cur + width(il) <= TARGET_WIDTH);
        assert(render_node_t(node, cur) == il);
        assert(!il.contains('\n')) by {
            if il.contains('\n') {
                let j = choose|j: int| 0 <= j < il.len() && il[j] == '\n';
                assert(cur_text[prev_text.len() + 1 + j] == '\n');
            }
        }
        lemma_rfind_none(il);
        assert(seq_state(nodes, col, k).0 =~= cur_text);
    }
}

/// A run of nodes whose one-line form fits in the width budget from its
/// column is printed on one line, as it is (the one-line form holding no
/// line break of its own).
pub proof fn law_fitting_run_stays_inline(nodes: Seq<Tree>, col: int)
    requires
        0 <= col,
        col + width(inline_item(nodes, nodes.len() as int)) <= TARGET_WIDTH,
        !inline_item(nodes, nodes.len() as int).contains('\n'),
    ensures
        render_seq_t(nodes, col) == inline_item(nodes, nodes.len() as int),
{
    if nodes.len() > 0 {
        lemma_fitting_state(nodes, col, nodes.len() as int);
    } else {
        assert(render_seq_t(nodes, col) =~= Seq::<char>::empty());
    }
}

/// A node whose one-line form fits from its column is printed that way.
pub proof fn law_fitting_node_stays_inline(t: Tree, col: int)
    requires
        col + width(inline_t(t)) <= TARGET_WIDTH,
    ensures
        render_node_t(t, col) == inline_t(t),
{
}

/// Flat lists and tuples (all items atoms) stay on one line however long;
/// truncation deals with the long ones.
pub proof fn law_flat_list_stays_inline(o: char, c: char, items: Seq<Seq<Tree>>, col: int)
    requires
        o == '[' || o == '(',
        is_flat_t(items),
    ensures
        render_node_t(Tree::Group(o, c, items), col) == inline_t(Tree::Group(o, c, items)),
{
}

/// An atom is printed as it is.
pub proof fn law_atom_unchanged(s: Seq<char>, col: int)
    ensures
        render_node_t(Tree::Atom(s), col) == s,
{
}

// ---------------------------------------------------------------------------
// Only the layout changes
// ---------------------------------------------------------------------------

/// The string-literal mode after one more character, as the reader tracks it.
pub open spec fn mode_step(m: Mode, ch: char) -> Mode {
    match m {
        Mode::Quoted => if ch == '\\' {
            Mode::Escaped
        } else if ch == '"' {
            Mode::Normal
        } else {
            Mode::Quoted
        },
        Mode::Escaped => Mode::Quoted,
        Mode::Normal => if ch == '"' {
            Mode::Quoted
        } else {
            Mode::Normal
        },
    }
}

/// The mode after reading `s` from mode `m`.
pub open spec fn mode_after(s: Seq<char>, m: Mode) -> Mode
    decreases s.len(),
{
    if s.len() == 0 {
        m
    } else {
        mode_after(s.drop_first(), mode_step(m, s[0]))
    }
}

/// `s` read from mode `m` with the whitespace outside string literals left
/// out.
pub open spec fn squeeze_from(s: Seq<char>, m: Mode) -> Seq<char>
    decreases s.len(),
{
    if s.len() == 0 {
        seq![]
    } else {
        (if m == Mode::Normal && crate::text::is_ws(s[0]) {
            seq![]
        } else {
            seq![s[0]]
        }) + squeeze_from(s.drop_first(), mode_step(m, s[0]))
    }
}

/// `s` without the whitespace outside its string literals.
pub open spec fn squeeze(s: Seq<char>) -> Seq<char> {
    squeeze_from(s, Mode::Normal)
}

proof fn lemma_squeeze_append(a: Seq<char>, b: Seq<char>, m: Mode)
    ensures
        squeeze_from(a + b, m) == squeeze_from(a, m) + squeeze_from(b, mode_after(a, m)),
        mode_after(a + b, m) == mode_after(b, mode_after(a, m)),
    decreases a.len(),
{
    if a.len() == 0 {
        assert(a + b =~= b);
        assert(squeeze_from(a, m) + squeeze_from(b, m) =~= squeeze_from(b, m));
    } else {
        lemma_squeeze_append(a.drop_first(), b, mode_step(m, a[0]));
        assert((a + b).drop_first() =~= a.drop_first() + b);
        assert((a + b)[0] == a[0]);
        let h: Seq<char> = if m == Mode::Normal && crate::text::is_ws(a[0]) {
            seq![]
        } else {
            seq![a[0]]
        };
        assert(h + (squeeze_from(a.drop_first(), mode_step(m, a[0])) + squeeze_from(
            b,
            mode_after(a, m),
        )) =~= squeeze_from(a, m) + squeeze_from(b, mode_after(a, m)));
    }
}

/// `x` reads from the normal mode back to it, leaving `y` once squeezed.
pub open spec fn reads_as(x: Seq<char>, y: Seq<char>) -> bool {
    squeeze(x) == y && mode_after(x, Mode::Normal) == Mode::Normal
}

proof fn lemma_reads_append(a: Seq<char>, ya: Seq<char>, b: Seq<char>, yb: Seq<char>)
    requires
        reads_as(a, ya),
        reads_as(b, yb),
    ensures
        reads_as(a + b, ya + yb),
{
    lemma_squeeze_append(a, b, Mode::Normal);
}

proof fn lemma_reads_char(c: char)
    requires
        c != '"',
    ensures
        reads_as(seq![c], if crate::text::is_ws(c) { seq![] } else { seq![c] }),
{
    let s = seq![c];
    assert(s.drop_first() =~= Seq::<char>::empty());
    assert(s[0] == c);
    assert(mode_step(Mode::Normal, c) == Mode::Normal);
    assert(squeeze_from(s.drop_first(), Mode::Normal) =~= Seq::<char>::empty());
    assert(mode_after(s.drop_first(), Mode::Normal) == Mode::Normal);
    let h: Seq<char> = if crate::text::is_ws(c) { seq![] } else { seq![c] };
    assert(h + Seq::<char>::empty() =~= h);
}

proof fn lemma_reads_blank(k: nat)
    ensures
        reads_as(Seq::new(k, |i: int| ' '), seq![]),
    decreases k,
{
    let s = Seq::new(k, |i: int| ' ');
    if k > 0 {
        lemma_reads_blank((k - 1) as nat);
        let p = Seq::new((k - 1) as nat, |i: int| ' ');
        assert(s =~= p + seq![' ']);
        lemma_reads_char(' ');
        assert(crate::text::is_ws(' '));
        lemma_reads_append(p, seq![], seq![' '], seq![]);
        assert(Seq::<char>::empty() + Seq::<char>::empty() =~= Seq::<char>::empty());
    } else {
        assert(s =~= Seq::<char>::empty());
    }
}

proof fn lemma_reads_spaces(n: int)
    ensures
        reads_as(spaces(n), seq![]),
{
    lemma_reads_blank(n as nat);
}

/// A bracket character the reader treats as a bracket.
pub open spec fn bracket_char(c: char) -> bool {
    c != '"' && !crate::text::is_ws(c)
}

/// Every atom of a tree ends outside any string literal, and its brackets
/// are bracket characters.
pub open spec fn tree_ok(t: Tree) -> bool
    decreases t, 0int,
{
    match t {
        Tree::Atom(s) => mode_after(s, Mode::Normal) == Mode::Normal,
        Tree::Group(o, c, items) => bracket_char(o) && bracket_char(c) && items_ok(
            items,
            items.len() as int,
        ),
    }
}

pub open spec fn items_ok(items: Seq<Seq<Tree>>, k: int) -> bool
    decreases items, k,
{
    if k <= 0 || k > items.len() {
        true
    } else {
        items_ok(items, k - 1) && item_ok(items[k - 1], items[k - 1].len() as int)
    }
}

pub open spec fn item_ok(item: Seq<Tree>, k: int) -> bool
    decreases item, k,
{
    if k <= 0 || k > item.len() {
        true
    } else {
        item_ok(item, k - 1) && tree_ok(item[k - 1])
    }
}

/// A tree written without any whitespace outside string literals: atoms
/// squeezed, items separated by bare commas.
pub open spec fn ser_t(t: Tree) -> Seq<char>
    decreases t, 0int,
{
    match t {
        Tree::Atom(s) => squeeze(s),
        Tree::Group(o, c, items) => seq![o] + ser_items(items, items.len() as int) + seq![c],
    }
}

pub open spec fn ser_items(items: Seq<Seq<Tree>>, k: int) -> Seq<char>
    decreases items, k,
{
    if k <= 0 || k > items.len() {
        seq![]
    } else if k == 1 {
        ser_item(items[0], items[0].len() as int)
    } else {
        ser_items(items, k - 1) + seq![','] + ser_item(items[k - 1], items[k - 1].len() as int)
    }
}

pub open spec fn ser_item(item: Seq<Tree>, k: int) -> Seq<char>
    decreases item, k,
{
    if k <= 0 || k > item.len() {
        seq![]
    } else {
        ser_item(item, k - 1) + ser_t(item[k - 1])
    }
}

proof fn lemma_reads_bracketed(o: char, mid: Seq<char>, ym: Seq<char>, c: char)
    requires
        bracket_char(o),
        bracket_char(c),
        reads_as(mid, ym),
    ensures
        reads_as(seq![o] + mid + seq![c], seq![o] + ym + seq![c]),
{
    lemma_reads_char(o);
    lemma_reads_char(c);
    lemma_reads_append(seq![o], seq![o], mid, ym);
    lemma_reads_append(seq![o] + mid, seq![o] + ym, seq![c], seq![c]);
}

proof fn lemma_inline_reads(t: Tree)
    requires
        tree_ok(t),
    ensures
        reads_as(inline_t(t), ser_t(t)),
    decreases t, 0int,
{
    match t {
        Tree::Atom(s) => {},
        Tree::Group(o, c, items) => {
            if items.len() == 0 {
                lemma_reads_bracketed(o, seq![], seq![], c);
                assert(seq![o] + Seq::<char>::empty() + seq![c] =~= seq![o, c]);
                assert(ser_items(items, 0) =~= Seq::<char>::empty());
            } else {
                lemma_inline_items_reads(items, items.len() as int);
                lemma_reads_bracketed(o, inline_items(items, items.len() as int), ser_items(items, items.len() as int), c);
            }
        },
    }
}

proof fn lemma_inline_items_reads(items: Seq<Seq<Tree>>, k: int)
    requires
        items_ok(items, k),
    ensures
        reads_as(inline_items(items, k), ser_items(items, k)),
    decreases items, k,
{
    if k <= 0 || k > items.len() {
        assert(reads_as(Seq::<char>::empty(), Seq::<char>::empty()));
    } else if k == 1 {
        lemma_inline_item_reads(items[0], items[0].len() as int);
    } else {
        lemma_inline_items_reads(items, k - 1);
        lemma_inline_item_reads(items[k - 1], items[k - 1].len() as int);
        lemma_reads_char(',');
        lemma_reads_char(' ');
        lemma_reads_append(seq![','], seq![','], seq![' '], seq![]);
        assert(seq![','] + seq![' '] =~= seq![',', ' ']);
        assert(seq![','] + Seq::<char>::empty() =~= seq![',']);
        lemma_reads_append(inline_items(items, k - 1), ser_items(items, k - 1), seq![',', ' '], seq![',']);
        lemma_reads_append(
            inline_items(items, k - 1) + seq![',', ' '],
            ser_items(items, k - 1) + seq![','],
            inline_item(items[k - 1], items[k - 1].len() as int),
            ser_item(items[k - 1], items[k - 1].len() as int),
        );
    }
}

proof fn lemma_inline_item_reads(item: Seq<Tree>, k: int)
    requires
        item_ok(item, k),
    ensures
        reads_as(inline_item(item, k), ser_item(item, k)),
    decreases item, k,
{
    if k <= 0 || k > item.len() {
        assert(reads_as(Seq::<char>::empty(), Seq::<char>::empty()));
    } else if k == 1 {
        lemma_inline_reads(item[0]);
        assert(item_ok(item, 0));
        assert(ser_item(item, 0) =~= Seq::<char>::empty());
        assert(ser_item(item, 1) =~= ser_t(item[0]));
    } else {
        lemma_inline_item_reads(item, k - 1);
        lemma_inline_reads(item[k - 1]);
        lemma_reads_char(' ');
        lemma_reads_append(inline_item(item, k - 1), ser_item(item, k - 1), seq![' '], seq![]);
        assert(ser_item(item, k - 1) + Seq::<char>::empty() =~= ser_item(item, k - 1));
        lemma_reads_append(
            inline_item(item, k - 1) + seq![' '],
            ser_item(item, k - 1),
            inline_t(item[k - 1]),
            ser_t(item[k - 1]),
        );
    }
}

proof fn lemma_render_node_reads(t: Tree, col: int)
    requires
        tree_ok(t),
    ensures
        reads_as(render_node_t(t, col), ser_t(t)),
    decreases t, 0int,
{
    lemma_inline_reads(t);
    let il = inline_t(t);
    if col + width(il) <= TARGET_WIDTH {
    } else {
        match t {
            Tree::Atom(s) => {},
            Tree::Group(o, c, items) => {
                if items.len() == 0 {
                } else if (o == '[' || o == '(') && is_flat_t(items) {
                } else if items.len() == 1 {
                    assert(items_ok(items, 0));
                    lemma_seq_state_reads(items[0], sat(col + 1), items[0].len() as int);
                    lemma_reads_bracketed(
                        o,
                        render_seq_t(items[0], sat(col + 1)),
                        ser_items(items, 1),
                        c,
                    );
                } else {
                    let n = items.len() as int;
                    lemma_render_items_reads(items, col, n);
                    lemma_reads_char(' ');
                    lemma_reads_char('\n');
                    lemma_reads_char(o);
                    lemma_reads_char(c);
                    lemma_reads_spaces(col);
                    let body = render_items_t(items, col, n);
                    lemma_reads_append(seq![o], seq![o], seq![' '], seq![]);
                    assert(seq![o] + seq![' '] =~= seq![o, ' ']);
                    assert(seq![o] + Seq::<char>::empty() =~= seq![o]);
                    lemma_reads_append(seq![o, ' '], seq![o], body, ser_items(items, n));
                    lemma_reads_append(seq![o, ' '] + body, seq![o] + ser_items(items, n), seq!['\n'], seq![]);
                    let y = seq![o] + ser_items(items, n);
                    assert(y + Seq::<char>::empty() =~= y);
                    lemma_reads_append(seq![o, ' '] + body + seq!['\n'], y, spaces(col), seq![]);
                    lemma_reads_append(seq![o, ' '] + body + seq!['\n'] + spaces(col), y, seq![c], seq![c]);
                }
            },
        }
    }
}

proof fn lemma_render_items_reads(items: Seq<Seq<Tree>>, col: int, k: int)
    requires
        items_ok(items, k),
    ensures
        reads_as(render_items_t(items, col, k), ser_items(items, k)),
    decreases items, k,
{
    if k <= 0 || k > items.len() {
        assert(reads_as(Seq::<char>::empty(), Seq::<char>::empty()));
    } else if k == 1 {
        assert(items_ok(items, 0));
        lemma_seq_state_reads(items[0], sat(col + 2), items[0].len() as int);
        assert(render_items_t(items, col, 1) == render_seq_t(items[0], sat(col + 2)));
        assert(ser_items(items, 1) == ser_item(items[0], items[0].len() as int));
    } else {
        lemma_render_items_reads(items, col, k - 1);
        lemma_seq_state_reads(items[k - 1], sat(col + 2), items[k - 1].len() as int);
        let prev = render_items_t(items, col, k - 1);
        let yp = ser_items(items, k - 1);
        lemma_reads_char('\n');
        lemma_reads_char(',');
        lemma_reads_char(' ');
        lemma_reads_spaces(col);
        assert(yp + Seq::<char>::empty() =~= yp);
        lemma_reads_append(prev, yp, seq!['\n'], seq![]);
        lemma_reads_append(prev + seq!['\n'], yp, spaces(col), seq![]);
        lemma_reads_append(seq![','], seq![','], seq![' '], seq![]);
        assert(seq![','] + seq![' '] =~= seq![',', ' ']);
        assert(seq![','] + Seq::<char>::empty() =~= seq![',']);
        lemma_reads_append(prev + seq!['\n'] + spaces(col), yp, seq![',', ' '], seq![',']);
        lemma_reads_append(
            prev + seq!['\n'] + spaces(col) + seq![',', ' '],
            yp + seq![','],
            render_seq_t(items[k - 1], sat(col + 2)),
            ser_item(items[k - 1], items[k - 1].len() as int),
        );
    }
}

proof fn lemma_seq_state_reads(nodes: Seq<Tree>, col: int, k: int)
    requires
        item_ok(nodes, k),
    ensures
        reads_as(seq_state(nodes, col, k).0, ser_item(nodes, k)),
    decreases nodes, k,
{
    if k <= 0 || k > nodes.len() {
        assert(reads_as(Seq::<char>::empty(), Seq::<char>::empty()));
    } else {
        lemma_seq_state_reads(nodes, col, k - 1);
        let prev = seq_state(nodes, col, k - 1);
        let cur = if k > 1 { sat(prev.1 + 1) } else { prev.1 };
        lemma_render_node_reads(nodes[k - 1], cur);
        let sep: Seq<char> = if k > 1 { seq![' '] } else { seq![] };
        lemma_reads_char(' ');
        assert(reads_as(sep, seq![])) by {
            if k <= 1 {
                assert(reads_as(Seq::<char>::empty(), Seq::<char>::empty()));
            }
        }
        let yp = ser_item(nodes, k - 1);
        assert(yp + Seq::<char>::empty() =~= yp);
        lemma_reads_append(prev.0, yp, sep, seq![]);
        lemma_reads_append(prev.0 + sep, yp, render_node_t(nodes[k - 1], cur), ser_t(nodes[k - 1]));
    }
}

proof fn lemma_item_prefix(a: Seq<Tree>, b: Seq<Tree>, k: int)
    requires
        k <= a.len(),
        k <= b.len(),
        forall|j: int| 0 <= j < k ==> a[j] == b[j],
    ensures
        item_ok(a, k) == item_ok(b, k),
        ser_item(a, k) == ser_item(b, k),
    decreases k,
{
    if k > 0 {
        lemma_item_prefix(a, b, k - 1);
    }
}

proof fn lemma_items_prefix(a: Seq<Seq<Tree>>, b: Seq<Seq<Tree>>, k: int)
    requires
        k <= a.len(),
        k <= b.len(),
        forall|j: int| 0 <= j < k ==> a[j] == b[j],
    ensures
        items_ok(a, k) == items_ok(b, k),
        ser_items(a, k) == ser_items(b, k),
    decreases k,
{
    if k > 0 {
        lemma_items_prefix(a, b, k - 1);
        assert(a[k - 1] == b[k - 1]);
        assert(a[0] == b[0]);
    }
}

proof fn lemma_item_push(a: Seq<Tree>, x: Tree)
    ensures
        item_ok(a.push(x), (a.len() + 1) as int) == (item_ok(a, a.len() as int) && tree_ok(x)),
        ser_item(a.push(x), (a.len() + 1) as int) == ser_item(a, a.len() as int) + ser_t(x),
{
    lemma_item_prefix(a.push(x), a, a.len() as int);
    assert(a.push(x)[a.len() as int] == x);
}

/// Items each followed by a comma.
pub open spec fn ser_trailing(items: Seq<Seq<Tree>>) -> Seq<char>
    decreases items.len(),
{
    if items.len() == 0 {
        seq![]
    } else {
        ser_trailing(items.drop_last()) + ser_item(items.last(), items.last().len() as int) + seq![',']
    }
}

proof fn lemma_items_push(xs: Seq<Seq<Tree>>, c: Seq<Tree>)
    ensures
        ser_items(xs.push(c), (xs.len() + 1) as int) == ser_trailing(xs) + ser_item(c, c.len() as int),
        items_ok(xs.push(c), (xs.len() + 1) as int) == (items_ok(xs, xs.len() as int) && item_ok(
            c,
            c.len() as int,
        )),
    decreases xs.len(),
{
    let ys = xs.push(c);
    lemma_items_prefix(ys, xs, xs.len() as int);
    assert(ys[xs.len() as int] == c);
    if xs.len() == 0 {
        assert(ser_trailing(xs) =~= Seq::<char>::empty());
        assert(ser_items(ys, 1) == ser_item(ys[0], ys[0].len() as int));
        assert(Seq::<char>::empty() + ser_item(c, c.len() as int) =~= ser_item(c, c.len() as int));
    } else {
        let d = xs.drop_last();
        lemma_items_push(d, xs.last());
        assert(d.push(xs.last()) =~= xs);
        assert(ser_items(ys, (xs.len() + 1) as int) == ser_items(ys, xs.len() as int) + seq![','] + ser_item(
            c,
            c.len() as int,
        ));
    }
}

proof fn lemma_reads_ws(w: Seq<char>)
    requires
        forall|j: int| 0 <= j < w.len() ==> crate::text::is_ws(#[trigger] w[j]),
    ensures
        reads_as(w, seq![]),
    decreases w.len(),
{
    if w.len() > 0 {
        let r = w.drop_first();
        assert forall|j: int| 0 <= j < r.len() implies crate::text::is_ws(#[trigger] r[j]) by {
            assert(r[j] == w[j + 1]);
        }
        lemma_reads_ws(r);
        assert(crate::text::is_ws(w[0]));
        assert(w[0] != '"');
        assert(Seq::<char>::empty() + Seq::<char>::empty() =~= Seq::<char>::empty());
    }
}

proof fn lemma_ws_mode(w: Seq<char>, m: Mode)
    requires
        forall|j: int| 0 <= j < w.len() ==> crate::text::is_ws(#[trigger] w[j]),
        w.len() > 0,
        m != Mode::Normal,
    ensures
        mode_after(w, m) == Mode::Quoted,
    decreases w.len(),
{
    let r = w.drop_first();
    assert(crate::text::is_ws(w[0]));
    assert(w[0] != '"' && w[0] != '\\');
    assert(mode_step(m, w[0]) == Mode::Quoted);
    assert(mode_after(w, m) == mode_after(r, Mode::Quoted));
    if r.len() > 0 {
        assert forall|j: int| 0 <= j < r.len() implies crate::text::is_ws(#[trigger] r[j]) by {
            assert(r[j] == w[j + 1]);
        }
        lemma_ws_mode(r, Mode::Quoted);
    }
}

/// Trimming an atom that ends outside a string literal keeps what squeezing
/// keeps.
proof fn lemma_trim_reads(a: Seq<char>)
    requires
        mode_after(a, Mode::Normal) == Mode::Normal,
    ensures
        reads_as(trim(a), squeeze(a)),
{
    let p = crate::text::lemma_trim_start_at(a);
    let u = a.skip(p);
    let q = crate::text::lemma_trim_end_at(u);
    let w1 = a.take(p);
    let x = u.take(q);
    let w2 = u.skip(q);
    assert(a =~= w1 + u);
    assert(u =~= x + w2);
    assert forall|j: int| 0 <= j < w1.len() implies crate::text::is_ws(#[trigger] w1[j]) by {
        assert(w1[j] == a[j]);
    }
    assert forall|j: int| 0 <= j < w2.len() implies crate::text::is_ws(#[trigger] w2[j]) by {
        assert(w2[j] == u[q + j]);
    }
    lemma_reads_ws(w1);
    lemma_reads_ws(w2);
    lemma_squeeze_append(w1, u, Mode::Normal);
    lemma_squeeze_append(x, w2, Mode::Normal);
    assert(Seq::<char>::empty() + squeeze(u) =~= squeeze(u));
    if w2.len() > 0 && mode_after(x, Mode::Normal) != Mode::Normal {
        lemma_ws_mode(w2, mode_after(x, Mode::Normal));
    }
    assert(squeeze(x) + Seq::<char>::empty() =~= squeeze(x));
    assert(trim(a) == x);
}

/// Flushing the atom moves its squeezed text into the current item.
proof fn lemma_flush_reads(f: PFrame)
    requires
        mode_after(f.atom, Mode::Normal) == Mode::Normal,
        item_ok(f.current, f.current.len() as int),
    ensures
        ser_item(flush_atom_t(f).current, flush_atom_t(f).current.len() as int) == ser_item(
            f.current,
            f.current.len() as int,
        ) + squeeze(f.atom),
        item_ok(flush_atom_t(f).current, flush_atom_t(f).current.len() as int),
        flush_atom_t(f).current.len() == 0 ==> f.current.len() == 0 && squeeze(f.atom) == Seq::<
            char,
        >::empty(),
{
    let tt = trim(f.atom);
    lemma_trim_reads(f.atom);
    let g = flush_atom_t(f);
    if tt.len() > 0 {
        lemma_item_push(f.current, Tree::Atom(tt));
    } else {
        assert(squeeze(tt) =~= Seq::<char>::empty());
        assert(ser_item(f.current, f.current.len() as int) + Seq::<char>::empty() =~= ser_item(
            f.current,
            f.current.len() as int,
        ));
    }
}

/// What a frame holds, written without whitespace: its finished items each
/// with a comma, the current item, and the atom being read.
pub open spec fn frame_body(f: PFrame) -> Seq<char> {
    ser_trailing(f.items) + ser_item(f.current, f.current.len() as int) + squeeze(f.atom)
}

/// The open frames written without whitespace, each after its bracket (the
/// outermost one has none).
pub open spec fn ser_frames(fs: Seq<PFrame>) -> Seq<char>
    decreases fs.len(),
{
    if fs.len() == 0 {
        seq![]
    } else {
        ser_frames(fs.drop_last()) + (if fs.len() > 1 {
            seq![fs.last().open]
        } else {
            seq![]
        }) + frame_body(fs.last())
    }
}

pub open spec fn frame_ok(f: PFrame) -> bool {
    items_ok(f.items, f.items.len() as int) && item_ok(f.current, f.current.len() as int)
}

/// What the reader holds after reading `read`: the open frames say, without
/// whitespace, exactly what was read; only the innermost frame has an atom
/// in progress, and `m` is the string mode after `read`.
pub open spec fn reader_inv(read: Seq<char>, fs: Seq<PFrame>, m: Mode) -> bool {
    &&& fs.len() >= 1
    &&& squeeze(read) == ser_frames(fs)
    &&& mode_after(read, Mode::Normal) == m
    &&& mode_after(fs.last().atom, Mode::Normal) == m
    &&& frames_fine(fs)
}

proof fn lemma_ser_frames_top(d: Seq<PFrame>, f: PFrame)
    ensures
        ser_frames(d.push(f)) == ser_frames(d) + (if d.len() > 0 {
            seq![f.open]
        } else {
            seq![]
        }) + frame_body(f),
{
    assert(d.push(f).drop_last() =~= d);
    assert(d.push(f).last() == f);
}

proof fn lemma_read_char(read: Seq<char>, ch: char, m: Mode)
    requires
        mode_after(read, Mode::Normal) == m,
    ensures
        squeeze(read.push(ch)) == squeeze(read) + (if m == Mode::Normal && crate::text::is_ws(ch) {
            seq![]
        } else {
            seq![ch]
        }),
        mode_after(read.push(ch), Mode::Normal) == mode_step(m, ch),
{
    lemma_squeeze_append(read, seq![ch], Mode::Normal);
    assert(read.push(ch) =~= read + seq![ch]);
    let s = seq![ch];
    assert(s.drop_first() =~= Seq::<char>::empty());
    assert(s[0] == ch);
    assert(squeeze_from(s.drop_first(), mode_step(m, ch)) =~= Seq::<char>::empty());
    assert(mode_after(s.drop_first(), mode_step(m, ch)) == mode_step(m, ch));
    assert(mode_after(s, m) == mode_step(m, ch));
    let h: Seq<char> = if m == Mode::Normal && crate::text::is_ws(ch) { seq![] } else { seq![ch] };
    assert(squeeze_from(s, m) == h + squeeze_from(s.drop_first(), mode_step(m, ch)));
    assert(h + Seq::<char>::empty() =~= h);
}

proof fn lemma_atom_char(atom: Seq<char>, ch: char, m: Mode)
    requires
        mode_after(atom, Mode::Normal) == m,
    ensures
        squeeze(atom.push(ch)) == squeeze(atom) + (if m == Mode::Normal && crate::text::is_ws(ch) {
            seq![]
        } else {
            seq![ch]
        }),
        mode_after(atom.push(ch), Mode::Normal) == mode_step(m, ch),
{
    lemma_read_char(atom, ch, m);
}

/// The frame conditions of the reader's invariant, one frame at a time.
pub open spec fn frames_fine(fs: Seq<PFrame>) -> bool {
    forall|k: int|
        0 <= k < fs.len() ==> frame_ok(#[trigger] fs[k]) && (k >= 1 ==> bracket_char(fs[k].open))
            && (k < fs.len() - 1 ==> fs[k].atom == Seq::<char>::empty())
}

proof fn lemma_fine_parts(fs: Seq<PFrame>)
    requires
        fs.len() >= 1,
        frames_fine(fs),
    ensures
        frames_fine(fs.drop_last()),
        frame_ok(fs.last()),
        fs.len() >= 2 ==> bracket_char(fs.last().open),
        fs.len() >= 2 ==> fs.drop_last().last().atom == Seq::<char>::empty(),
{
    let d = fs.drop_last();
    assert(fs[fs.len() - 1] == fs.last());
    assert forall|k: int| 0 <= k < d.len() implies frame_ok(#[trigger] d[k]) && (k >= 1
        ==> bracket_char(d[k].open)) && (k < d.len() - 1 ==> d[k].atom == Seq::<char>::empty()) by {
        assert(d[k] == fs[k]);
    }
    if fs.len() >= 2 {
        assert(d[d.len() - 1] == fs[fs.len() - 2]);
    }
}

proof fn lemma_fine_push(d: Seq<PFrame>, f: PFrame)
    requires
        frames_fine(d),
        frame_ok(f),
        d.len() >= 1 ==> bracket_char(f.open),
        d.len() >= 1 ==> d.last().atom == Seq::<char>::empty(),
    ensures
        frames_fine(d.push(f)),
{
    let e = d.push(f);
    assert forall|k: int| 0 <= k < e.len() implies frame_ok(#[trigger] e[k]) && (k >= 1
        ==> bracket_char(e[k].open)) && (k < e.len() - 1 ==> e[k].atom == Seq::<char>::empty()) by {
        if k < d.len() {
            assert(e[k] == d[k]);
            if k == d.len() - 1 {
                assert(d[k] == d.last());
            }
        } else {
            assert(e[k] == f);
        }
    }
}

proof fn lemma_empty_frame(ch: char)
    ensures
        frame_body(new_frame(ch)) == Seq::<char>::empty(),
        frame_ok(new_frame(ch)),
        mode_after(new_frame(ch).atom, Mode::Normal) == Mode::Normal,
{
    let nf = new_frame(ch);
    assert(ser_trailing(nf.items) =~= Seq::<char>::empty());
    assert(ser_item(nf.current, 0) =~= Seq::<char>::empty());
    assert(squeeze(nf.atom) =~= Seq::<char>::empty());
    assert(items_ok(nf.items, 0));
    assert(item_ok(nf.current, 0));
}

proof fn lemma_step_append(read: Seq<char>, fs: Seq<PFrame>, m: Mode, ch: char)
    requires
        reader_inv(read, fs, m),
    ensures
        reader_inv(
            read.push(ch),
            set_top(fs, with_char(fs.last(), ch)),
            mode_step(m, ch),
        ),
{
    let top = fs.last();
    let d = fs.drop_last();
    assert(d.push(top) =~= fs);
    lemma_fine_parts(fs);
    lemma_ser_frames_top(d, top);
    lemma_read_char(read, ch, m);
    let f2 = with_char(top, ch);
    lemma_atom_char(top.atom, ch, m);
    lemma_ser_frames_top(d, f2);
    let h: Seq<char> = if m == Mode::Normal && crate::text::is_ws(ch) { seq![] } else { seq![ch] };
    assert(frame_body(f2) =~= frame_body(top) + h);
    assert(ser_frames(d.push(f2)) =~= ser_frames(fs) + h);
    if d.len() >= 1 {
        assert(d.last() == fs[fs.len() - 2]);
    }
    lemma_fine_push(d, f2);
    assert(d.push(f2).last() == f2);
}

proof fn lemma_step_open(read: Seq<char>, fs: Seq<PFrame>, ch: char)
    requires
        reader_inv(read, fs, Mode::Normal),
        is_opener(ch),
    ensures
        reader_inv(
            read.push(ch),
            set_top(fs, flush_atom_t(fs.last())).push(new_frame(ch)),
            Mode::Normal,
        ),
{
    let top = fs.last();
    let d = fs.drop_last();
    assert(d.push(top) =~= fs);
    lemma_fine_parts(fs);
    lemma_ser_frames_top(d, top);
    lemma_read_char(read, ch, Mode::Normal);
    let g = flush_atom_t(top);
    lemma_flush_reads(top);
    let nf = new_frame(ch);
    let fs1 = d.push(g);
    lemma_ser_frames_top(d, g);
    lemma_ser_frames_top(fs1, nf);
    lemma_empty_frame(ch);
    assert(frame_body(g) =~= frame_body(top));
    assert(ser_frames(fs1.push(nf)) =~= ser_frames(fs) + seq![ch]);
    if d.len() >= 1 {
        assert(d.last() == fs[fs.len() - 2]);
    }
    lemma_fine_push(d, g);
    lemma_fine_push(fs1, nf);
    assert(fs1.push(nf).last() == nf);
}

proof fn lemma_step_close(read: Seq<char>, fs: Seq<PFrame>, ch: char)
    requires
        reader_inv(read, fs, Mode::Normal),
        is_closer(ch),
        fs.len() >= 2,
    ensures
        ({
            let closed = finish_item_t(fs.last());
            let rest = fs.drop_last();
            let p = rest.last();
            reader_inv(
                read.push(ch),
                set_top(
                    rest,
                    PFrame { current: p.current.push(Tree::Group(closed.open, ch, closed.items)), ..p },
                ),
                Mode::Normal,
            )
        }),
{
    let top = fs.last();
    let d = fs.drop_last();
    assert(d.push(top) =~= fs);
    lemma_fine_parts(fs);
    lemma_ser_frames_top(d, top);
    lemma_read_char(read, ch, Mode::Normal);
    let g = flush_atom_t(top);
    lemma_flush_reads(top);
    let closed = finish_item_t(top);
    let p = d.last();
    let dd = d.drop_last();
    assert(dd.push(p) =~= d);
    lemma_fine_parts(d);
    let grp = Tree::Group(closed.open, ch, closed.items);
    let p2 = PFrame { current: p.current.push(grp), ..p };
    lemma_ser_frames_top(dd, p);
    lemma_ser_frames_top(dd, p2);
    lemma_item_push(p.current, grp);
    assert(squeeze(p.atom) =~= Seq::<char>::empty());
    if g.current.len() > 0 || g.items.len() > 0 {
        lemma_items_push(g.items, g.current);
        assert(closed.items == g.items.push(g.current));
        assert(ser_items(closed.items, closed.items.len() as int) =~= frame_body(top));
    } else {
        assert(closed.items =~= Seq::<Seq<Tree>>::empty());
        assert(ser_trailing(top.items) =~= Seq::<char>::empty());
        assert(ser_item(top.current, 0) =~= Seq::<char>::empty());
        assert(ser_items(closed.items, 0) =~= frame_body(top));
    }
    assert(tree_ok(grp));
    assert(ser_t(grp) =~= seq![top.open] + frame_body(top) + seq![ch]);
    assert(frame_body(p2) =~= frame_body(p) + ser_t(grp));
    assert(ser_frames(dd.push(p2)) =~= ser_frames(fs) + seq![ch]);
    if dd.len() >= 1 {
        assert(dd.last() == d[d.len() - 2]);
    }
    lemma_fine_push(dd, p2);
    assert(dd.push(p2).last() == p2);
    assert(mode_after(p2.atom, Mode::Normal) == Mode::Normal);
}

proof fn lemma_step_comma(read: Seq<char>, fs: Seq<PFrame>)
    requires
        reader_inv(read, fs, Mode::Normal),
    ensures
        ({
            let g = flush_atom_t(fs.last());
            reader_inv(
                read.push(','),
                set_top(fs, PFrame { items: g.items.push(g.current), current: seq![], ..g }),
                Mode::Normal,
            )
        }),
{
    let top = fs.last();
    let d = fs.drop_last();
    assert(d.push(top) =~= fs);
    lemma_fine_parts(fs);
    lemma_ser_frames_top(d, top);
    lemma_read_char(read, ',', Mode::Normal);
    let g = flush_atom_t(top);
    lemma_flush_reads(top);
    let f2 = PFrame { items: g.items.push(g.current), current: seq![], ..g };
    lemma_items_push(g.items, g.current);
    lemma_ser_frames_top(d, f2);
    let xs = g.items.push(g.current);
    assert(xs.drop_last() =~= g.items);
    assert(xs.last() == g.current);
    assert(ser_item(f2.current, 0) =~= Seq::<char>::empty());
    assert(squeeze(f2.atom) =~= Seq::<char>::empty());
    assert(item_ok(f2.current, 0));
    assert(frame_body(f2) =~= frame_body(top) + seq![',']);
    assert(ser_frames(d.push(f2)) =~= ser_frames(fs) + seq![',']);
    if d.len() >= 1 {
        assert(d.last() == fs[fs.len() - 2]);
    }
    lemma_fine_push(d, f2);
    assert(d.push(f2).last() == f2);
}

proof fn lemma_reader_step(read: Seq<char>, fs: Seq<PFrame>, m: Mode, ch: char)
    requires
        reader_inv(read, fs, m),
        parse_step(fs, m, ch) is Some,
    ensures
        parse_step(fs, m, ch) matches Some(r) && reader_inv(read.push(ch), r.0, r.1),
{
    if m != Mode::Normal || ch == '"' || !(is_opener(ch) || is_closer(ch) || ch == ',') {
        lemma_step_append(read, fs, m, ch);
    } else if is_opener(ch) {
        lemma_step_open(read, fs, ch);
    } else if is_closer(ch) {
        assert(fs.drop_last().len() > 0);
        lemma_step_close(read, fs, ch);
    } else {
        lemma_step_comma(read, fs);
    }
}

proof fn lemma_reader_run(s: Seq<char>, i: int, fs: Seq<PFrame>, m: Mode)
    requires
        0 <= i <= s.len(),
        reader_inv(s.take(i), fs, m),
    ensures
        parse_run(s, i, fs, m) matches Some(r) ==> reader_inv(s, r.0, r.1),
    decreases s.len() - i,
{
    if i < s.len() {
        if parse_step(fs, m, s[i]) is Some {
            lemma_reader_step(s.take(i), fs, m, s[i]);
            assert(s.take(i + 1) =~= s.take(i).push(s[i]));
            let next = parse_step(fs, m, s[i])->0;
            lemma_reader_run(s, i + 1, next.0, next.1);
        }
    } else {
        assert(s.take(i) =~= s);
    }
}

/// Text shaped like `Show` output: every bracket opened is closed (kinds may
/// differ), every string literal is closed, and no comma stands outside all
/// brackets.
pub open spec fn show_shaped(s: Seq<char>) -> bool {
    parse_run(s, 0, parse_start(), Mode::Normal) matches Some(r) && r.0.len() == 1 && r.1
        == Mode::Normal && r.0[0].items.len() == 0
}

/// The pretty-printer only lays out: once the whitespace outside string
/// literals is left out, its output is its input. Nothing is added, dropped
/// or reordered, and string literals come through as they are.
pub proof fn law_pretty_changes_only_layout(s: Seq<char>)
    requires
        show_shaped(s),
    ensures
        squeeze(pretty_t(s)) == squeeze(s),
{
    let start = parse_start();
    let root = new_frame('\0');
    lemma_empty_frame('\0');
    assert(start == seq![root]);
    assert(start.drop_last() =~= Seq::<PFrame>::empty());
    lemma_ser_frames_top(Seq::<PFrame>::empty(), root);
    assert(Seq::<PFrame>::empty().push(root) =~= start);
    assert(ser_frames(Seq::<PFrame>::empty()) =~= Seq::<char>::empty());
    assert(ser_frames(start) =~= Seq::<char>::empty());
    assert(s.take(0) =~= Seq::<char>::empty());
    assert(squeeze(Seq::<char>::empty()) =~= Seq::<char>::empty());
    assert(frames_fine(start)) by {
        assert forall|k: int| 0 <= k < start.len() implies frame_ok(#[trigger] start[k]) && (k >= 1
            ==> bracket_char(start[k].open)) && (k < start.len() - 1 ==> start[k].atom == Seq::<
            char,
        >::empty()) by {
            assert(start[k] == root);
        }
    }
    lemma_reader_run(s, 0, start, Mode::Normal);
    let r = parse_run(s, 0, start, Mode::Normal)->0;
    let fs = r.0;
    let top = fs.last();
    assert(fs[0] == top);
    assert(fs.drop_last() =~= Seq::<PFrame>::empty());
    assert(ser_frames(fs) =~= frame_body(top));
    assert(ser_trailing(top.items) =~= Seq::<char>::empty());
    lemma_fine_parts(fs);
    lemma_flush_reads(top);
    let g = flush_atom_t(top);
    let nodes = parse_t(s);
    if g.current.len() > 0 {
        assert(finish_item_t(top).items =~= seq![g.current]);
        let one = seq![g.current];
        assert(one.drop_first() =~= Seq::<Seq<Tree>>::empty());
        assert(flatten_t(one.drop_first()) =~= Seq::<Tree>::empty());
        assert(flatten_t(one) == one[0] + flatten_t(one.drop_first()));
        assert(g.current + Seq::<Tree>::empty() =~= g.current);
        assert(nodes =~= g.current);
    } else {
        assert(finish_item_t(top).items =~= Seq::<Seq<Tree>>::empty());
        assert(nodes =~= Seq::<Tree>::empty());
        assert(ser_item(nodes, 0) =~= Seq::<char>::empty());
        assert(ser_item(top.current, 0) =~= Seq::<char>::empty());
    }
    lemma_seq_state_reads(nodes, 0, nodes.len() as int);
}

} // verus!
