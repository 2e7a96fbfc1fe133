//! The window manager's textual layout dump, read into a tree.
//!
//! The dump is a parenthesized expression: a node is `"(" element+ ")"`,
//! where an element is a type tag (`split` or `clients`), a window id
//! (`0x` followed by hex digits), a layout clause (one of `vertical`,
//! `horizontal`, `max`, `grid`, then `:` and one or more `:`-separated
//! size fields made of digits and dots), or a nested child node. Blank
//! bytes may follow each element. The tree keeps what later decisions
//! read: the node's layout orientation, if any, and its first two child
//! nodes; tags, ids and sizes are validated and discarded.

use vstd::prelude::*;

use crate::error::ShiftError;
use crate::geometry::is_ascii_digit;

verus! {

/// Orientation or algorithm of one frame.
#[derive(Clone, Copy, Debug, PartialEq, Eq, Structural)]
pub enum LayoutType {
    Vertical,
    Horizontal,
    Max,
    Grid,
}

/// A parsed node of the layout tree: its layout clause, if one was
/// present, and its first two child nodes in order of appearance.
#[derive(Debug, PartialEq)]
pub struct LayoutNode {
    pub layout: Option<LayoutType>,
    pub first: Option<Box<LayoutNode>>,
    pub second: Option<Box<LayoutNode>>,
}

/// The mathematical shape of a layout node: contracts speak of this.
#[verifier::ext_equal]
pub struct NodeModel {
    pub layout: Option<LayoutType>,
    pub children: Seq<NodeModel>,
}

impl NodeModel {
    /// A model that an in-memory tree can represent: at most two
    /// children at every node.
    pub open spec fn wf(self) -> bool
        decreases self,
    {
        self.children.len() <= 2 && forall|k: int|
            0 <= k < self.children.len() ==> (#[trigger] self.children[k]).wf()
    }
}

impl LayoutNode {
    /// The mathematical shape this tree represents.
    pub open spec fn model(self) -> NodeModel
        decreases self,
    {
        NodeModel {
            layout: self.layout,
            children: match self.first {
                None => Seq::empty(),
                Some(a) => match self.second {
                    None => seq![a.model()],
                    Some(b) => seq![a.model(), b.model()],
                },
            },
        }
    }
}

impl View for LayoutNode {
    type V = NodeModel;

    open spec fn view(&self) -> NodeModel {
        self.model()
    }
}

/// The model of every representable tree is well formed.
pub proof fn lemma_view_wf(t: &LayoutNode)
    ensures
        t@.wf(),
    decreases t,
{
    match t.first {
        None => {},
        Some(a) => {
            lemma_view_wf(&a);
            match t.second {
                None => {},
                Some(b) => {
                    lemma_view_wf(&b);
                },
            }
        },
    }
}

// Byte values of the dump's alphabet.
pub open spec fn is_blank(b: u8) -> bool {
    b == 32 || b == 9 || b == 10 || b == 13
}

pub open spec fn is_hex_digit(b: u8) -> bool {
    is_ascii_digit(b) || (97 <= b && b <= 102) || (65 <= b && b <= 70)
}

/// A byte of a layout size field: an ASCII digit or a dot.
pub open spec fn is_size_byte(b: u8) -> bool {
    is_ascii_digit(b) || b == 46
}

/// A byte the size list of a layout clause may contain.
pub open spec fn is_size_or_colon(b: u8) -> bool {
    is_size_byte(b) || b == 58
}

pub open spec fn word_split() -> Seq<u8> {
    seq![115u8, 112u8, 108u8, 105u8, 116u8]
}

pub open spec fn word_clients() -> Seq<u8> {
    seq![99u8, 108u8, 105u8, 101u8, 110u8, 116u8, 115u8]
}

pub open spec fn layout_name(l: LayoutType) -> Seq<u8> {
    match l {
        LayoutType::Vertical => seq![118u8, 101u8, 114u8, 116u8, 105u8, 99u8, 97u8, 108u8],
        LayoutType::Horizontal => seq![
            104u8,
            111u8,
            114u8,
            105u8,
            122u8,
            111u8,
            110u8,
            116u8,
            97u8,
            108u8,
        ],
        LayoutType::Max => seq![109u8, 97u8, 120u8],
        LayoutType::Grid => seq![103u8, 114u8, 105u8, 100u8],
    }
}

/// Length of the run of blank bytes starting at `i`.
pub open spec fn blank_run(s: Seq<u8>, i: int) -> nat
    decreases s.len() - i,
{
    if i < 0 || i >= s.len() || !is_blank(s[i]) {
        0
    } else {
        1 + blank_run(s, i + 1)
    }
}

/// Length of the run of hex digits starting at `i`.
pub open spec fn hex_run(s: Seq<u8>, i: int) -> nat
    decreases s.len() - i,
{
    if i < 0 || i >= s.len() || !is_hex_digit(s[i]) {
        0
    } else {
        1 + hex_run(s, i + 1)
    }
}

/// Length of the run of size or colon bytes starting at `i`.
pub open spec fn size_colon_run(s: Seq<u8>, i: int) -> nat
    decreases s.len() - i,
{
    if i < 0 || i >= s.len() || !is_size_or_colon(s[i]) {
        0
    } else {
        1 + size_colon_run(s, i + 1)
    }
}

pub open spec fn starts_with(s: Seq<u8>, i: int, w: Seq<u8>) -> bool {
    0 <= i && i + w.len() <= s.len() && s.subrange(i, i + w.len()) == w
}

/// One non-node element of a node: a type tag, an id, or a layout clause.
#[derive(Clone, Copy, Debug, PartialEq, Eq, Structural)]
pub enum Atom {
    TypeTag,
    Id,
    Layout(LayoutType),
}

/// Which layout word, if any, stands at `i`, and its length.
pub open spec fn layout_word_at(s: Seq<u8>, i: int) -> Option<LayoutType> {
    if starts_with(s, i, layout_name(LayoutType::Vertical)) {
        Some(LayoutType::Vertical)
    } else if starts_with(s, i, layout_name(LayoutType::Horizontal)) {
        Some(LayoutType::Horizontal)
    } else if starts_with(s, i, layout_name(LayoutType::Max)) {
        Some(LayoutType::Max)
    } else if starts_with(s, i, layout_name(LayoutType::Grid)) {
        Some(LayoutType::Grid)
    } else {
        None
    }
}

/// The atom standing at `i`, if any, and the position just past it.
/// Choices are tried in the grammar's order: type tag, id, layout clause.
pub open spec fn spec_atom(s: Seq<u8>, i: int) -> Option<(Atom, int)> {
    if starts_with(s, i, word_split()) {
        Some((Atom::TypeTag, i + word_split().len()))
    } else if starts_with(s, i, word_clients()) {
        Some((Atom::TypeTag, i + word_clients().len()))
    } else if starts_with(s, i, seq![48u8, 120u8]) {
        let e = i + 2 + hex_run(s, i + 2);
        if e > i + 2 {
            Some((Atom::Id, e))
        } else {
            None
        }
    } else {
        match layout_word_at(s, i) {
            None => None,
            Some(l) => {
                let j = i + layout_name(l).len();
                if j < s.len() && s[j] == 58 && j + 1 < s.len() && is_size_byte(s[j + 1]) {
                    Some((Atom::Layout(l), j + 1 + size_colon_run(s, j + 1)))
                } else {
                    None
                }
            },
        }
    }
}

/// How an atom changes the node being gathered: the first layout clause
/// is kept, everything else leaves the node as it is.
pub open spec fn model_apply_atom(m: NodeModel, a: Atom) -> NodeModel {
    match a {
        Atom::Layout(l) => if m.layout is None {
            NodeModel { layout: Some(l), children: m.children }
        } else {
            m
        },
        _ => m,
    }
}

/// How a parsed child joins the node being gathered: the first two
/// children are kept in order, later ones are validated and dropped.
pub open spec fn model_add_child(m: NodeModel, c: NodeModel) -> NodeModel {
    if m.children.len() < 2 {
        NodeModel { layout: m.layout, children: m.children.push(c) }
    } else {
        m
    }
}

pub open spec fn empty_model() -> NodeModel {
    NodeModel { layout: None, children: Seq::empty() }
}

/// The position after an element that ended at `j`, with the following
/// blank bytes consumed, kept strictly past `i` and within the input.
pub open spec fn after_elem(s: Seq<u8>, i: int, j: int) -> int {
    let k = if j < i + 1 {
        i + 1
    } else if j > s.len() {
        s.len() as int
    } else {
        j
    };
    let e = k + blank_run(s, k);
    if e > s.len() {
        s.len() as int
    } else {
        e
    }
}

/// The node standing at `i`, if the dump matches the grammar there, and
/// the position just past its closing parenthesis.
pub open spec fn spec_node(s: Seq<u8>, i: int) -> Option<(NodeModel, int)>
    decreases s.len() - i, 0int,
{
    if 0 <= i && i < s.len() && s[i] == 40 {
        spec_elems(s, i + 1, empty_model(), false)
    } else {
        None
    }
}

/// The element list of a node, from `i` up to and including the closing
/// parenthesis; `acc` is the node gathered so far and `any` says whether
/// at least one element was seen, as the grammar requires.
pub open spec fn spec_elems(s: Seq<u8>, i: int, acc: NodeModel, any: bool) -> Option<
    (NodeModel, int),
>
    decreases s.len() - i, 1int,
{
    if i < 0 || i >= s.len() {
        None
    } else if s[i] == 41 {
        if any {
            Some((acc, i + 1))
        } else {
            None
        }
    } else if s[i] == 40 {
        match spec_node(s, i) {
            None => None,
            Some((c, j)) => spec_elems(s, after_elem(s, i, j), model_add_child(acc, c), true),
        }
    } else {
        match spec_atom(s, i) {
            None => None,
            Some((a, j)) => spec_elems(s, after_elem(s, i, j), model_apply_atom(acc, a), true),
        }
    }
}

/// The tree denoted by a layout dump: the node at its start. Bytes after
/// the root node's closing parenthesis are ignored.
pub open spec fn spec_parse_layout(s: Seq<u8>) -> Option<NodeModel> {
    match spec_node(s, 0) {
        None => None,
        Some((m, j)) => Some(m),
    }
}

/// Reads a layout type from its name, as the window manager writes it
/// in the frame's algorithm attribute: exactly one of the four layout
/// words, nothing more.
pub fn layout_type_from_name(s: &[u8]) -> (r: Option<LayoutType>)
    ensures
        match r {
            Some(l) => s@ == layout_name(l),
            None => forall|l: LayoutType| s@ != layout_name(l),
        },
{
    let v = layout_name_vec(LayoutType::Vertical);
    if s.len() == v.len() && match_word(s, 0, &v) {
        proof {
            assert(s@.subrange(0, s@.len() as int) =~= s@);
        }
        return Some(LayoutType::Vertical);
    }
    let h = layout_name_vec(LayoutType::Horizontal);
    if s.len() == h.len() && match_word(s, 0, &h) {
        proof {
            assert(s@.subrange(0, s@.len() as int) =~= s@);
        }
        return Some(LayoutType::Horizontal);
    }
    let m = layout_name_vec(LayoutType::Max);
    if s.len() == m.len() && match_word(s, 0, &m) {
        proof {
            assert(s@.subrange(0, s@.len() as int) =~= s@);
        }
        return Some(LayoutType::Max);
    }
    let g = layout_name_vec(LayoutType::Grid);
    if s.len() == g.len() && match_word(s, 0, &g) {
        proof {
            assert(s@.subrange(0, s@.len() as int) =~= s@);
        }
        return Some(LayoutType::Grid);
    }
    proof {
        assert forall|l: LayoutType| s@ != layout_name(l) by {
            if s@.len() == layout_name(l).len() {
                assert(s@.subrange(0, s@.len() as int) =~= s@);
            }
        }
    }
    None
}

/// A run of blank bytes is bounded by the end of the input.
proof fn lemma_blank_run_le(s: Seq<u8>, i: int)
    requires
        0 <= i <= s.len(),
    ensures
        i + blank_run(s, i) <= s.len(),
    decreases s.len() - i,
{
    if i < s.len() && is_blank(s[i]) {
        lemma_blank_run_le(s, i + 1);
    }
}

/// A run of blanks ends exactly where the bytes stop being blank.
proof fn lemma_blank_run_eq(s: Seq<u8>, i: int, k: int)
    requires
        0 <= i <= k <= s.len(),
        forall|t: int| i <= t < k ==> is_blank(#[trigger] s[t]),
        k < s.len() ==> !is_blank(s[k]),
    ensures
        blank_run(s, i) == k - i,
    decreases k - i,
{
    if i < k {
        lemma_blank_run_eq(s, i + 1, k);
    }
}

proof fn lemma_hex_run_eq(s: Seq<u8>, i: int, k: int)
    requires
        0 <= i <= k <= s.len(),
        forall|t: int| i <= t < k ==> is_hex_digit(#[trigger] s[t]),
        k < s.len() ==> !is_hex_digit(s[k]),
    ensures
        hex_run(s, i) == k - i,
    decreases k - i,
{
    if i < k {
        lemma_hex_run_eq(s, i + 1, k);
    }
}

proof fn lemma_size_colon_run_eq(s: Seq<u8>, i: int, k: int)
    requires
        0 <= i <= k <= s.len(),
        forall|t: int| i <= t < k ==> is_size_or_colon(#[trigger] s[t]),
        k < s.len() ==> !is_size_or_colon(s[k]),
    ensures
        size_colon_run(s, i) == k - i,
    decreases k - i,
{
    if i < k {
        lemma_size_colon_run_eq(s, i + 1, k);
    }
}

/// Whether the word `w` stands at byte `i` of `s`.
fn match_word(s: &[u8], i: usize, w: &Vec<u8>) -> (r: bool)
    requires
        i <= s@.len(),
    ensures
        r == starts_with(s@, i as int, w@),
{
    if s.len() - i < w.len() {
        return false;
    }
    let mut k: usize = 0;
    while k < w.len()
        invariant
            i + w@.len() <= s@.len(),
            s@.len() <= usize::MAX,
            k <= w@.len(),
            forall|t: int| 0 <= t < k ==> s@[i + t] == w@[t],
        decreases w@.len() - k,
    {
        if s[i + k] != w[k] {
            proof {
                assert(s@.subrange(i as int, i + w@.len())[k as int] != w@[k as int]);
            }
            return false;
        }
        k = k + 1;
    }
    proof {
        assert(s@.subrange(i as int, i + w@.len()) =~= w@);
    }
    true
}

/// The position just past the blank bytes that start at `i`.
fn skip_blanks(s: &[u8], i: usize) -> (k: usize)
    requires
        i <= s@.len(),
    ensures
        k as int == i + blank_run(s@, i as int),
        i <= k <= s@.len(),
{
    let mut k: usize = i;
    while k < s.len() && (s[k] == 32 || s[k] == 9 || s[k] == 10 || s[k] == 13)
        invariant
            i <= k <= s@.len(),
            forall|t: int| i <= t < k ==> is_blank(#[trigger] s@[t]),
        decreases s@.len() - k,
    {
        k = k + 1;
    }
    proof {
        lemma_blank_run_eq(s@, i as int, k as int);
    }
    k
}

/// The position just past the hex digits that start at `i`.
fn skip_hex(s: &[u8], i: usize) -> (k: usize)
    requires
        i <= s@.len(),
    ensures
        k as int == i + hex_run(s@, i as int),
        i <= k <= s@.len(),
{
    let mut k: usize = i;
    while k < s.len() && ((48 <= s[k] && s[k] <= 57) || (97 <= s[k] && s[k] <= 102) || (65 <= s[k]
        && s[k] <= 70))
        invariant
            i <= k <= s@.len(),
            forall|t: int| i <= t < k ==> is_hex_digit(#[trigger] s@[t]),
        decreases s@.len() - k,
    {
        k = k + 1;
    }
    proof {
        lemma_hex_run_eq(s@, i as int, k as int);
    }
    k
}

/// The position just past the size and colon bytes that start at `i`.
fn skip_size_colon(s: &[u8], i: usize) -> (k: usize)
    requires
        i <= s@.len(),
    ensures
        k as int == i + size_colon_run(s@, i as int),
        i <= k <= s@.len(),
{
    let mut k: usize = i;
    while k < s.len() && ((48 <= s[k] && s[k] <= 57) || s[k] == 46 || s[k] == 58)
        invariant
            i <= k <= s@.len(),
            forall|t: int| i <= t < k ==> is_size_or_colon(#[trigger] s@[t]),
        decreases s@.len() - k,
    {
        k = k + 1;
    }
    proof {
        lemma_size_colon_run_eq(s@, i as int, k as int);
    }
    k
}

fn word_split_vec() -> (r: Vec<u8>)
    ensures
        r@ == word_split(),
{
    let r = vec![115u8, 112u8, 108u8, 105u8, 116u8];
    proof {
        assert(r@ =~= word_split());
    }
    r
}

fn word_clients_vec() -> (r: Vec<u8>)
    ensures
        r@ == word_clients(),
{
    let r = vec![99u8, 108u8, 105u8, 101u8, 110u8, 116u8, 115u8];
    proof {
        assert(r@ =~= word_clients());
    }
    r
}

fn layout_name_vec(l: LayoutType) -> (r: Vec<u8>)
    ensures
        r@ == layout_name(l),
{
    let r = match l {
        LayoutType::Vertical => vec![118u8, 101u8, 114u8, 116u8, 105u8, 99u8, 97u8, 108u8],
        LayoutType::Horizontal => vec![
            104u8,
            111u8,
            114u8,
            105u8,
            122u8,
            111u8,
            110u8,
            116u8,
            97u8,
            108u8,
        ],
        LayoutType::Max => vec![109u8, 97u8, 120u8],
        LayoutType::Grid => vec![103u8, 114u8, 105u8, 100u8],
    };
    proof {
        assert(r@ =~= layout_name(l));
    }
    r
}

/// Which layout word stands at `i`, if any.
fn layout_word(s: &[u8], i: usize) -> (r: Option<LayoutType>)
    requires
        i <= s@.len(),
    ensures
        r == layout_word_at(s@, i as int),
{
    let v = layout_name_vec(LayoutType::Vertical);
    if match_word(s, i, &v) {
        return Some(LayoutType::Vertical);
    }
    let h = layout_name_vec(LayoutType::Horizontal);
    if match_word(s, i, &h) {
        return Some(LayoutType::Horizontal);
    }
    let m = layout_name_vec(LayoutType::Max);
    if match_word(s, i, &m) {
        return Some(LayoutType::Max);
    }
    let g = layout_name_vec(LayoutType::Grid);
    if match_word(s, i, &g) {
        return Some(LayoutType::Grid);
    }
    None
}

/// Reads the atom standing at `i`, if any, and where it ends.
fn parse_atom(s: &[u8], i: usize) -> (r: Option<(Atom, usize)>)
    requires
        i <= s@.len(),
    ensures
        match r {
            Some(p) => spec_atom(s@, i as int) == Some((p.0, p.1 as int)) && i < p.1 <= s@.len(),
            None => spec_atom(s@, i as int) is None,
        },
{
    let slen = s.len();
    proof {
        assert(s@.len() == slen);
    }
    let w = word_split_vec();
    if match_word(s, i, &w) {
        return Some((Atom::TypeTag, i + 5));
    }
    let w = word_clients_vec();
    if match_word(s, i, &w) {
        return Some((Atom::TypeTag, i + 7));
    }
    let w = vec![48u8, 120u8];
    proof {
        assert(w@ =~= seq![48u8, 120u8]);
    }
    if match_word(s, i, &w) {
        let e = skip_hex(s, i + 2);
        if e > i + 2 {
            return Some((Atom::Id, e));
        } else {
            return None;
        }
    }
    match layout_word(s, i) {
        None => None,
        Some(l) => {
            let n = layout_name_vec(l);
            let j = i + n.len();
            proof {
                assert(starts_with(s@, i as int, layout_name(l)));
            }
            if j < s.len() && s[j] == 58 && j + 1 < s.len() && ((48 <= s[j + 1] && s[j + 1] <= 57)
                || s[j + 1] == 46) {
                let e = skip_size_colon(s, j + 1);
                Some((Atom::Layout(l), e))
            } else {
                None
            }
        },
    }
}

/// How an atom changes the node being gathered.
fn apply_atom(acc: LayoutNode, a: Atom) -> (r: LayoutNode)
    ensures
        r@ == model_apply_atom(acc@, a),
        r.first == acc.first,
        r.second == acc.second,
{
    match a {
        Atom::Layout(l) => {
            if acc.layout.is_none() {
                let r = LayoutNode { layout: Some(l), first: acc.first, second: acc.second };
                proof {
                    assert(r@ =~= model_apply_atom(acc@, a));
                }
                r
            } else {
                acc
            }
        },
        _ => acc,
    }
}

/// How a parsed child joins the node being gathered.
fn add_child(acc: LayoutNode, c: LayoutNode) -> (r: LayoutNode)
    requires
        acc.second is Some ==> acc.first is Some,
    ensures
        r@ == model_add_child(acc@, c@),
        r.second is Some ==> r.first is Some,
{
    if acc.first.is_none() {
        let r = LayoutNode { layout: acc.layout, first: Some(Box::new(c)), second: None };
        proof {
            assert(r@.children =~= acc@.children.push(c@));
            assert(r@ =~= model_add_child(acc@, c@));
        }
        r
    } else if acc.second.is_none() {
        let r = LayoutNode { layout: acc.layout, first: acc.first, second: Some(Box::new(c)) };
        proof {
            assert(r@.children =~= acc@.children.push(c@));
            assert(r@ =~= model_add_child(acc@, c@));
        }
        r
    } else {
        acc
    }
}

/// Reads the node standing at `i`, if the dump matches the grammar
/// there, and the position just past its closing parenthesis.
fn parse_node(s: &[u8], i: usize) -> (r: Option<(LayoutNode, usize)>)
    requires
        i <= s@.len(),
    ensures
        match r {
            Some(p) => spec_node(s@, i as int) == Some((p.0@, p.1 as int)) && i < p.1 <= s@.len()
                && (p.0.second is Some ==> p.0.first is Some),
            None => spec_node(s@, i as int) is None,
        },
    decreases s@.len() - i, 0int,
{
    if i < s.len() && s[i] == 40 {
        let empty = LayoutNode { layout: None, first: None, second: None };
        proof {
            assert(empty@ == empty_model());
        }
        parse_elems(s, i + 1, empty, false)
    } else {
        None
    }
}

/// Reads the element list of a node from `i` up to and including the
/// closing parenthesis, growing `acc`.
fn parse_elems(s: &[u8], i: usize, acc: LayoutNode, any: bool) -> (r: Option<(LayoutNode, usize)>)
    requires
        i <= s@.len(),
        acc.second is Some ==> acc.first is Some,
    ensures
        match r {
            Some(p) => spec_elems(s@, i as int, acc@, any) == Some((p.0@, p.1 as int)) && i < p.1
                <= s@.len() && (p.0.second is Some ==> p.0.first is Some),
            None => spec_elems(s@, i as int, acc@, any) is None,
        },
    decreases s@.len() - i, 1int,
{
    if i >= s.len() {
        return None;
    }
    let b = s[i];
    if b == 41 {
        if any {
            return Some((acc, i + 1));
        } else {
            return None;
        }
    }
    if b == 40 {
        match parse_node(s, i) {
            None => None,
            Some((c, j)) => {
                let acc2 = add_child(acc, c);
                let k = skip_blanks(s, j);
                proof {
                    lemma_blank_run_le(s@, j as int);
                    assert(after_elem(s@, i as int, j as int) == k as int);
                }
                parse_elems(s, k, acc2, true)
            },
        }
    } else {
        match parse_atom(s, i) {
            None => None,
            Some((a, j)) => {
                let acc2 = apply_atom(acc, a);
                let k = skip_blanks(s, j);
                proof {
                    lemma_blank_run_le(s@, j as int);
                    assert(after_elem(s@, i as int, j as int) == k as int);
                }
                parse_elems(s, k, acc2, true)
            },
        }
    }
}

/// The layout stack of `m` along `path`, root first: the layout of each
/// node traversed, descending into the first child for a `0` path bit
/// and into the second for a `1`. `None` where a traversed node has no
/// layout clause or the required child is missing.
pub open spec fn spec_resolve(m: NodeModel, path: Seq<u8>) -> Option<Seq<LayoutType>>
    decreases path.len(),
{
    if path.len() == 0 {
        Some(Seq::empty())
    } else {
        match m.layout {
            None => None,
            Some(l) => {
                let ci: int = if path[0] == 1 {
                    1
                } else {
                    0
                };
                if m.children.len() <= ci {
                    None
                } else {
                    match spec_resolve(m.children[ci], path.drop_first()) {
                        None => None,
                        Some(rest) => Some(seq![l] + rest),
                    }
                }
            },
        }
    }
}

/// A resolved layout stack is exactly as long as its path.
pub proof fn lemma_resolve_len(m: NodeModel, path: Seq<u8>)
    ensures
        spec_resolve(m, path) matches Some(st) ==> st.len() == path.len(),
    decreases path.len(),
{
    if path.len() > 0 && m.layout is Some {
        let ci: int = if path[0] == 1 {
            1
        } else {
            0
        };
        if m.children.len() > ci {
            lemma_resolve_len(m.children[ci], path.drop_first());
        }
    }
}

fn resolve_from(node: &LayoutNode, path: &[u8], k: usize) -> (r: Result<Vec<LayoutType>, ShiftError>)
    requires
        k <= path@.len(),
    ensures
        match r {
            Ok(v) => spec_resolve(node@, path@.skip(k as int)) == Some(v@),
            Err(e) => spec_resolve(node@, path@.skip(k as int)) is None && e
                == ShiftError::MalformedLayoutDump,
        },
    decreases path@.len() - k,
{
    if k == path.len() {
        proof {
            assert(path@.skip(k as int) =~= Seq::<u8>::empty());
        }
        return Ok(Vec::new());
    }
    proof {
        assert(path@.skip(k as int).len() > 0);
        assert(path@.skip(k as int)[0] == path@[k as int]);
        assert(path@.skip(k as int).drop_first() =~= path@.skip(k + 1));
    }
    let l = match node.layout {
        None => {
            return Err(ShiftError::MalformedLayoutDump);
        },
        Some(l) => l,
    };
    let child: &LayoutNode = if path[k] == 1 {
        match (&node.first, &node.second) {
            (Some(_), Some(b)) => b,
            _ => {
                return Err(ShiftError::MalformedLayoutDump);
            },
        }
    } else {
        match &node.first {
            Some(a) => a,
            None => {
                return Err(ShiftError::MalformedLayoutDump);
            },
        }
    };
    match resolve_from(child, path, k + 1) {
        Err(e) => Err(e),
        Ok(mut rest) => {
            let mut v: Vec<LayoutType> = Vec::new();
            v.push(l);
            v.append(&mut rest);
            proof {
                let ghost ci: int = if path@[k as int] == 1 {
                    1
                } else {
                    0
                };
                assert(child@ == node@.children[ci]);
                assert(v@ =~= seq![l] + spec_resolve(child@, path@.skip(k + 1)).unwrap());
            }
            Ok(v)
        },
    }
}

/// Walks `path` through the tree and returns the layout of each node
/// passed, root first: the first child is taken for a `0` bit, the
/// second for a `1`. Fails where a traversed node has no layout clause
/// or lacks the required child.
pub fn resolve_layout_stack(tree: &LayoutNode, path: &[u8]) -> (r: Result<Vec<LayoutType>, ShiftError>)
    ensures
        match r {
            Ok(v) => spec_resolve(tree@, path@) == Some(v@) && v@.len() == path@.len(),
            Err(e) => spec_resolve(tree@, path@) is None && e == ShiftError::MalformedLayoutDump,
        },
        path@.len() == 0 ==> r is Ok,
{
    proof {
        assert(path@.skip(0) =~= path@);
        lemma_resolve_len(tree@, path@);
    }
    resolve_from(tree, path, 0)
}

/// What a layout dump and a frame index path denote together: the dump's
/// tree, resolved along the path.
pub open spec fn spec_layout_stack(dump: Seq<u8>, path: Seq<u8>) -> Option<Seq<LayoutType>> {
    match spec_parse_layout(dump) {
        None => None,
        Some(m) => spec_resolve(m, path),
    }
}

/// Parses the layout dump and resolves the layout stack along the frame
/// index path, in one step.
pub fn get_layout_stack(layout: &[u8], index: &[u8]) -> (r: Result<Vec<LayoutType>, ShiftError>)
    ensures
        match r {
            Ok(v) => spec_layout_stack(layout@, index@) == Some(v@) && v@.len() == index@.len(),
            Err(e) => spec_layout_stack(layout@, index@) is None && e
                == ShiftError::MalformedLayoutDump,
        },
{
    let tree = match parse_layout(layout) {
        Ok(t) => t,
        Err(e) => {
            return Err(e);
        },
    };
    resolve_layout_stack(&tree, index)
}

/// The type tag a serialized node carries: `split` where it has
/// children, `clients` where it has none.
pub open spec fn type_frag(m: NodeModel) -> Seq<u8> {
    if m.children.len() > 0 {
        word_split()
    } else {
        word_clients()
    }
}

/// The serialized layout clause: a blank, the layout word, and one
/// even-ratio size field; empty where the node has no layout.
pub open spec fn layout_frag(m: NodeModel) -> Seq<u8> {
    match m.layout {
        None => Seq::empty(),
        Some(l) => seq![32u8] + layout_name(l) + seq![58u8, 48u8, 46u8, 53u8],
    }
}

/// The canonical textual form of a tree in the dump grammar: each node
/// is its type tag, its layout clause if any, and its children, blank
/// separated between parentheses.
pub open spec fn dump_of(m: NodeModel) -> Seq<u8>
    decreases m, 1int,
{
    seq![40u8] + type_frag(m) + layout_frag(m) + children_frag(m.children) + seq![41u8]
}

/// The serialized children of a node: each preceded by one blank.
pub open spec fn children_frag(cs: Seq<NodeModel>) -> Seq<u8>
    decreases cs, 0int,
{
    if cs.len() == 0 {
        Seq::empty()
    } else {
        seq![32u8] + dump_of(cs[0]) + children_frag(cs.drop_first())
    }
}

impl LayoutNode {
    /// Writes this tree in the dump grammar's textual form.
    pub fn to_dump(&self) -> (r: Vec<u8>)
        ensures
            r@ == dump_of(self@),
        decreases self,
    {
        let mut out: Vec<u8> = Vec::new();
        out.push(40);
        if self.first.is_some() {
            let mut w = word_split_vec();
            out.append(&mut w);
        } else {
            let mut w = word_clients_vec();
            out.append(&mut w);
        }
        proof {
            assert(out@ =~= seq![40u8] + type_frag(self@));
        }
        match &self.layout {
            None => {},
            Some(l) => {
                out.push(32);
                let mut w = layout_name_vec(*l);
                out.append(&mut w);
                out.push(58);
                out.push(48);
                out.push(46);
                out.push(53);
            },
        }
        proof {
            assert(out@ =~= seq![40u8] + type_frag(self@) + layout_frag(self@));
        }
        match &self.first {
            None => {
                proof {
                    assert(children_frag(self@.children) =~= Seq::<u8>::empty());
                }
            },
            Some(a) => {
                out.push(32);
                let mut d = a.to_dump();
                out.append(&mut d);
                match &self.second {
                    None => {
                        proof {
                            reveal_with_fuel(children_frag, 3);
                            assert(self@.children =~= seq![a@]);
                            assert(self@.children.drop_first() =~= Seq::<NodeModel>::empty());
                            assert(children_frag(self@.children) =~= seq![32u8] + dump_of(a@));
                        }
                    },
                    Some(b) => {
                        out.push(32);
                        let mut d2 = b.to_dump();
                        out.append(&mut d2);
                        proof {
                            reveal_with_fuel(children_frag, 4);
                            assert(self@.children =~= seq![a@, b@]);
                            assert(self@.children.drop_first() =~= seq![b@]);
                            assert(self@.children.drop_first().drop_first()
                                =~= Seq::<NodeModel>::empty());
                            assert(children_frag(self@.children.drop_first()) =~= seq![32u8]
                                + dump_of(b@));
                            assert(children_frag(self@.children) =~= seq![32u8] + dump_of(a@)
                                + (seq![32u8] + dump_of(b@)));
                        }
                    },
                }
            },
        }
        proof {
            assert(out@ =~= seq![40u8] + type_frag(self@) + layout_frag(self@) + children_frag(
                self@.children,
            ));
        }
        out.push(41);
        proof {
            assert(out@ =~= dump_of(self@));
        }
        out
    }
}

/// A word whose byte `k` differs from the input does not stand there.
proof fn lemma_differ_not_starts_with(s: Seq<u8>, i: int, w: Seq<u8>, k: int)
    requires
        0 <= i,
        0 <= k < w.len(),
        i + w.len() <= s.len() ==> s[i + k] != w[k],
    ensures
        !starts_with(s, i, w),
{
    if i + w.len() <= s.len() {
        assert(s.subrange(i, i + w.len())[k] == s[i + k]);
    }
}

/// The bytes of a known window of the input can be read one by one.
proof fn lemma_byte_in(s: Seq<u8>, p: int, w: Seq<u8>, u: int)
    requires
        0 <= p,
        p + w.len() <= s.len(),
        s.subrange(p, p + w.len()) == w,
        0 <= u < w.len(),
    ensures
        s[p + u] == w[u],
{
    assert(s.subrange(p, p + w.len())[u] == s[p + u]);
}

/// A window of a known window of the input is itself known.
proof fn lemma_chunk(s: Seq<u8>, p: int, d: Seq<u8>, o: int, w: Seq<u8>)
    requires
        0 <= p,
        p + d.len() <= s.len(),
        s.subrange(p, p + d.len()) == d,
        0 <= o,
        o + w.len() <= d.len(),
        d.subrange(o, o + w.len()) == w,
    ensures
        s.subrange(p + o, p + o + w.len()) == w,
{
    assert forall|t: int| 0 <= t < w.len() implies s.subrange(p + o, p + o + w.len())[t]
        == w[t] by {
        assert(d.subrange(o, o + w.len())[t] == d[o + t]);
        assert(s.subrange(p, p + d.len())[o + t] == s[p + o + t]);
        assert(s.subrange(p + o, p + o + w.len())[t] == s[p + o + t]);
    }
    assert(s.subrange(p + o, p + o + w.len()) =~= w);
}

/// A type tag standing at `p` parses as exactly that atom.
proof fn lemma_atom_tag(s: Seq<u8>, p: int, w: Seq<u8>)
    requires
        w == word_split() || w == word_clients(),
        starts_with(s, p, w),
    ensures
        spec_atom(s, p) == Some((Atom::TypeTag, p + w.len())),
{
    if w == word_clients() {
        lemma_byte_in(s, p, w, 0);
        lemma_differ_not_starts_with(s, p, word_split(), 0);
    }
}

/// A layout clause standing at `p`, with no size or colon byte directly
/// after it, parses as exactly that atom.
proof fn lemma_atom_layout(s: Seq<u8>, p: int, l: LayoutType)
    requires
        starts_with(s, p, layout_name(l) + seq![58u8, 48u8, 46u8, 53u8]),
        p + layout_name(l).len() + 4 < s.len(),
        !is_size_or_colon(s[p + layout_name(l).len() + 4]),
    ensures
        spec_atom(s, p) == Some((Atom::Layout(l), p + layout_name(l).len() + 4)),
{
    let nm = layout_name(l);
    let w = nm + seq![58u8, 48u8, 46u8, 53u8];
    let jc = p + nm.len() as int;
    lemma_byte_in(s, p, w, 0);
    assert(w[0] == nm[0]);
    assert(nm[0] == 118 || nm[0] == 104 || nm[0] == 109 || nm[0] == 103) by {
        if l == LayoutType::Vertical {
        } else if l == LayoutType::Horizontal {
        } else if l == LayoutType::Max {
        } else {
        }
    }
    lemma_differ_not_starts_with(s, p, word_split(), 0);
    lemma_differ_not_starts_with(s, p, word_clients(), 0);
    lemma_differ_not_starts_with(s, p, seq![48u8, 120u8], 0);
    assert(w.subrange(0, nm.len() as int) =~= nm);
    lemma_chunk(s, p, w, 0, nm);
    if l == LayoutType::Vertical {
    } else if l == LayoutType::Horizontal {
        lemma_differ_not_starts_with(s, p, layout_name(LayoutType::Vertical), 0);
    } else if l == LayoutType::Max {
        lemma_differ_not_starts_with(s, p, layout_name(LayoutType::Vertical), 0);
        lemma_differ_not_starts_with(s, p, layout_name(LayoutType::Horizontal), 0);
    } else {
        lemma_differ_not_starts_with(s, p, layout_name(LayoutType::Vertical), 0);
        lemma_differ_not_starts_with(s, p, layout_name(LayoutType::Horizontal), 0);
        lemma_differ_not_starts_with(s, p, layout_name(LayoutType::Max), 0);
    }
    assert(layout_word_at(s, p) == Some(l));
    lemma_byte_in(s, p, w, nm.len() as int);
    lemma_byte_in(s, p, w, nm.len() as int + 1);
    lemma_byte_in(s, p, w, nm.len() as int + 2);
    lemma_byte_in(s, p, w, nm.len() as int + 3);
    assert(w[nm.len() as int] == 58);
    assert(w[nm.len() as int + 1] == 48);
    assert(w[nm.len() as int + 2] == 46);
    assert(w[nm.len() as int + 3] == 53);
    assert(s[jc] == 58 && s[jc + 1] == 48 && s[jc + 2] == 46 && s[jc + 3] == 53);
    lemma_size_colon_run_eq(s, jc + 1, jc + 4);
}

/// Where a non-empty child list stands at `p`, the blank and the first
/// child's text are found there, and the rest of the list follows.
proof fn lemma_children_open(s: Seq<u8>, p: int, cs: Seq<NodeModel>)
    requires
        cs.len() > 0,
        0 <= p,
        p + children_frag(cs).len() <= s.len(),
        s.subrange(p, p + children_frag(cs).len()) == children_frag(cs),
    ensures
        children_frag(cs).len() == 1 + dump_of(cs[0]).len() + children_frag(
            cs.drop_first(),
        ).len(),
        s[p] == 32,
        s[p + 1] == 40,
        blank_run(s, p) == 1,
        s.subrange(p + 1, p + 1 + dump_of(cs[0]).len()) == dump_of(cs[0]),
        s.subrange(p + 1 + dump_of(cs[0]).len(), p + children_frag(cs).len()) == children_frag(
            cs.drop_first(),
        ),
{
    let d0 = dump_of(cs[0]);
    let cf = children_frag(cs);
    let rest = children_frag(cs.drop_first());
    assert(cf == seq![32u8] + d0 + rest);
    assert(d0 == seq![40u8] + type_frag(cs[0]) + layout_frag(cs[0]) + children_frag(
        cs[0].children,
    ) + seq![41u8]);
    lemma_byte_in(s, p, cf, 0);
    lemma_byte_in(s, p, cf, 1);
    assert(cf[0] == 32);
    assert(cf[1] == d0[0]);
    assert(d0[0] == 40);
    lemma_blank_run_eq(s, p, p + 1);
    assert(cf.subrange(1, 1 + d0.len() as int) =~= d0);
    lemma_chunk(s, p, cf, 1, d0);
    assert(cf.subrange(1 + d0.len() as int, cf.len() as int) =~= rest);
    lemma_chunk(s, p, cf, 1 + d0.len() as int, rest);
}

/// Parsing a serialized node's opening: past the type tag and the
/// layout clause, the element list stands at the first child or at the
/// closing parenthesis, with the layout gathered.
#[verifier::rlimit(100)]
proof fn lemma_parse_dump_head(m: NodeModel, s: Seq<u8>, i: int)
    requires
        0 <= i,
        i + dump_of(m).len() <= s.len(),
        s.subrange(i, i + dump_of(m).len()) == dump_of(m),
    ensures
        spec_node(s, i) == spec_elems(
            s,
            i + 1 + type_frag(m).len() + layout_frag(m).len() + (if children_frag(
                m.children,
            ).len() > 0 {
                1int
            } else {
                0int
            }),
            NodeModel { layout: m.layout, children: Seq::empty() },
            true,
        ),
{
    let d = dump_of(m);
    let n = d.len() as int;
    let tf = type_frag(m);
    let lf = layout_frag(m);
    let cf = children_frag(m.children);
    assert(d == seq![40u8] + tf + lf + cf + seq![41u8]);
    let o_lf = 1 + tf.len() as int;
    let o_cf = o_lf + lf.len() as int;
    assert(n == o_cf + cf.len() + 1);
    let p_tf = i + 1;
    let p_lf = i + o_lf;
    let p_cf = i + o_cf;
    let p_cl = i + n - 1;
    assert((m.children.len() > 0) == (cf.len() > 0));

    assert(d.subrange(1, o_lf) =~= tf);
    assert(d.subrange(o_lf, o_cf) =~= lf);
    assert(d.subrange(o_cf, o_cf + cf.len() as int) =~= cf);
    lemma_chunk(s, i, d, 1, tf);
    lemma_chunk(s, i, d, o_lf, lf);
    lemma_chunk(s, i, d, o_cf, cf);
    lemma_byte_in(s, i, d, 0);
    lemma_byte_in(s, i, d, n - 1);
    assert(d[0] == 40);
    assert(d[n - 1] == 41);
    assert(s[i] == 40);
    assert(s[p_cl] == 41);
    if cf.len() > 0 {
        lemma_children_open(s, p_cf, m.children);
    }

    // The node opens at `i`; its element list starts with the type tag.
    assert(spec_node(s, i) == spec_elems(s, p_tf, empty_model(), false));
    assert(tf == word_split() || tf == word_clients());
    lemma_atom_tag(s, p_tf, tf);
    assert(spec_atom(s, p_tf) == Some((Atom::TypeTag, p_lf)));

    let acc1 = NodeModel { layout: m.layout, children: Seq::empty() };
    let qa = p_lf + (if lf.len() > 0 || cf.len() > 0 {
        1int
    } else {
        0int
    });
    let q2 = p_cf + (if cf.len() > 0 {
        1int
    } else {
        0int
    });
    if lf.len() > 0 {
        let l = m.layout->Some_0;
        let nm = layout_name(l);
        let w = nm + seq![58u8, 48u8, 46u8, 53u8];
        assert(lf == seq![32u8] + nm + seq![58u8, 48u8, 46u8, 53u8]);
        lemma_byte_in(s, p_lf, lf, 0);
        lemma_byte_in(s, p_lf, lf, 1);
        assert(lf[0] == 32);
        assert(lf[1] == w[0]);
        assert(w[0] == nm[0]);
        assert(nm[0] == 118 || nm[0] == 104 || nm[0] == 109 || nm[0] == 103) by {
            if l == LayoutType::Vertical {
            } else if l == LayoutType::Horizontal {
            } else if l == LayoutType::Max {
            } else {
            }
        }
        assert(s[p_lf] == 32 && !is_blank(s[p_lf + 1]));
        lemma_blank_run_eq(s, p_lf, p_lf + 1);
        assert(after_elem(s, p_tf, p_lf) == qa);
        assert(spec_elems(s, p_tf, empty_model(), false) == spec_elems(
            s,
            qa,
            empty_model(),
            true,
        ));
        // The layout clause parses as one atom that sets the layout.
        assert(lf.subrange(1, lf.len() as int) =~= w);
        lemma_chunk(s, p_lf, lf, 1, w);
        assert(starts_with(s, qa, w));
        assert(!is_size_or_colon(s[p_cf])) by {
            if cf.len() > 0 {
            } else {
                assert(s[p_cf] == 41);
            }
        }
        lemma_atom_layout(s, qa, l);
        assert(spec_atom(s, qa) == Some((Atom::Layout(l), p_cf)));
        if cf.len() > 0 {
            assert(blank_run(s, p_cf) == 1);
        } else {
            lemma_blank_run_eq(s, p_cf, p_cf);
        }
        assert(after_elem(s, qa, p_cf) == q2);
        assert(model_apply_atom(empty_model(), Atom::Layout(l)) =~= acc1);
        assert(spec_elems(s, qa, empty_model(), true) == spec_elems(s, q2, acc1, true));
    } else {
        assert(acc1 =~= empty_model());
        if cf.len() > 0 {
            assert(s[p_lf] == 32 && blank_run(s, p_lf) == 1);
        } else {
            assert(s[p_lf] == 41);
            lemma_blank_run_eq(s, p_lf, p_lf);
        }
        assert(after_elem(s, p_tf, p_lf) == q2);
        assert(spec_elems(s, p_tf, empty_model(), false) == spec_elems(s, q2, acc1, true));
    }
    assert(spec_node(s, i) == spec_elems(s, q2, acc1, true));
}

/// Parsing recovers a serialized node exactly, wherever its text stands
/// in the input: the grammar's canonical form loses nothing.
#[verifier::rlimit(100)]
proof fn lemma_parse_dump_at(m: NodeModel, s: Seq<u8>, i: int)
    requires
        m.wf(),
        0 <= i,
        i + dump_of(m).len() <= s.len(),
        s.subrange(i, i + dump_of(m).len()) == dump_of(m),
    ensures
        spec_node(s, i) == Some((m, i + dump_of(m).len())),
    decreases m,
{
    let d = dump_of(m);
    let n = d.len() as int;
    let tf = type_frag(m);
    let lf = layout_frag(m);
    let cf = children_frag(m.children);
    assert(d == seq![40u8] + tf + lf + cf + seq![41u8]);
    let o_cf = 1 + tf.len() + lf.len() as int;
    let p_cf = i + o_cf;
    let p_cl = i + n - 1;
    assert(n == o_cf + cf.len() + 1);
    assert((m.children.len() > 0) == (cf.len() > 0));
    assert(d.subrange(o_cf, o_cf + cf.len() as int) =~= cf);
    lemma_chunk(s, i, d, o_cf, cf);
    lemma_byte_in(s, i, d, n - 1);
    assert(d[n - 1] == 41);
    assert(s[p_cl] == 41);

    let acc1 = NodeModel { layout: m.layout, children: Seq::empty() };
    let q2 = p_cf + (if cf.len() > 0 {
        1int
    } else {
        0int
    });
    lemma_parse_dump_head(m, s, i);
    assert(spec_node(s, i) == spec_elems(s, q2, acc1, true));

    if m.children.len() > 0 {
        lemma_children_open(s, p_cf, m.children);
        let c0 = m.children[0];
        let d0 = dump_of(c0);
        let rest1 = children_frag(m.children.drop_first());
        assert(q2 == p_cf + 1);
        assert(c0.wf());
        assert(s.subrange(q2, q2 + d0.len()) == d0);
        lemma_parse_dump_at(c0, s, q2);
        let j3 = q2 + d0.len() as int;
        let acc2 = model_add_child(acc1, c0);
        if m.children.len() > 1 {
            let c1 = m.children[1];
            let d1 = dump_of(c1);
            assert(m.children.drop_first().len() > 0);
            assert(m.children.drop_first()[0] == c1);
            assert(s.subrange(j3, j3 + rest1.len()) == rest1);
            lemma_children_open(s, j3, m.children.drop_first());
            assert(s[j3] == 32 && s[j3 + 1] == 40);
            assert(after_elem(s, q2, j3) == j3 + 1);
            assert(spec_elems(s, q2, acc1, true) == spec_elems(s, j3 + 1, acc2, true));
            assert(c1.wf());
            assert(s.subrange(j3 + 1, j3 + 1 + d1.len()) == d1);
            lemma_parse_dump_at(c1, s, j3 + 1);
            let j4 = j3 + 1 + d1.len() as int;
            let acc3 = model_add_child(acc2, c1);
            assert(m.children.drop_first().drop_first() =~= Seq::<NodeModel>::empty());
            assert(children_frag(m.children.drop_first().drop_first()).len() == 0);
            assert(j4 == p_cl);
            lemma_blank_run_eq(s, j4, j4);
            assert(after_elem(s, j3 + 1, j4) == j4);
            assert(spec_elems(s, j3 + 1, acc2, true) == spec_elems(s, j4, acc3, true));
            assert(spec_elems(s, j4, acc3, true) == Some((acc3, i + n)));
            assert(acc3.children =~= m.children);
            assert(acc3 =~= m);
        } else {
            assert(m.children.drop_first().len() == 0);
            assert(rest1 =~= Seq::<u8>::empty());
            assert(j3 == p_cl);
            lemma_blank_run_eq(s, j3, j3);
            assert(after_elem(s, q2, j3) == j3);
            assert(spec_elems(s, q2, acc1, true) == spec_elems(s, j3, acc2, true));
            assert(spec_elems(s, j3, acc2, true) == Some((acc2, i + n)));
            assert(acc2.children =~= m.children);
            assert(acc2 =~= m);
        }
    } else {
        assert(q2 == p_cl);
        assert(spec_elems(s, q2, acc1, true) == Some((acc1, i + n)));
        assert(acc1.children =~= m.children);
        assert(acc1 =~= m);
    }
}

/// Round trip: a tree written in the grammar's own textual form parses
/// back to the very same tree, and so yields the same layout stack as
/// the tree itself for every path.
pub proof fn lemma_dump_round_trip(m: NodeModel, path: Seq<u8>)
    requires
        m.wf(),
    ensures
        spec_parse_layout(dump_of(m)) == Some(m),
        spec_layout_stack(dump_of(m), path) == spec_resolve(m, path),
{
    let d = dump_of(m);
    assert(d.subrange(0, d.len() as int) =~= d);
    lemma_parse_dump_at(m, d, 0);
}

/// Round trip for any tree built in memory: its serialized text parses
/// back to its own shape, so resolving any path in the reparsed dump
/// gives the very stack the tree itself yields.
pub proof fn lemma_tree_dump_round_trip(t: &LayoutNode, path: Seq<u8>)
    ensures
        spec_parse_layout(dump_of(t@)) == Some(t@),
        spec_layout_stack(dump_of(t@), path) == spec_resolve(t@, path),
{
    lemma_view_wf(t);
    lemma_dump_round_trip(t@, path);
}

/// Parses a layout dump into its tree: the dump must open with the root
/// node; bytes after the root's closing parenthesis are ignored.
pub fn parse_layout(s: &[u8]) -> (r: Result<LayoutNode, ShiftError>)
    ensures
        match r {
            Ok(t) => spec_parse_layout(s@) == Some(t@),
            Err(e) => spec_parse_layout(s@) is None && e == ShiftError::MalformedLayoutDump,
        },
{
    match parse_node(s, 0) {
        Some((t, _)) => Ok(t),
        None => Err(ShiftError::MalformedLayoutDump),
    }
}

} // verus!
