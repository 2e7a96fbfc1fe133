//! Rectangle model: the frame and client geometries reported by the window
//! manager, with edge accessors and the adjacency test that decides whether
//! a child rectangle still has room to move inside its parent.

use vstd::prelude::*;

use crate::direction::ShiftDirection;
use crate::error::ShiftError;

verus! {

/// An on-screen rectangle, as reported by the window manager in the textual
/// form `<width>x<height>+<x>+<y>`. All fields are non-negative.
#[derive(Clone, Copy, Debug, PartialEq, Eq, Structural)]
pub struct Geometry {
    pub width: usize,
    pub height: usize,
    pub x: usize,
    pub y: usize,
}

impl Geometry {
    /// The rectangle fits the machine's address arithmetic: both far edges
    /// are representable as `usize`.
    pub open spec fn wf(self) -> bool {
        self.x + self.width <= usize::MAX && self.y + self.height <= usize::MAX
    }

    pub open spec fn spec_right_edge(self) -> int {
        self.x + self.width
    }

    pub open spec fn spec_left_edge(self) -> int {
        self.x as int
    }

    pub open spec fn spec_top_edge(self) -> int {
        self.y as int
    }

    pub open spec fn spec_bottom_edge(self) -> int {
        self.y + self.height
    }

    /// Whether both far edges are representable, checked at run time.
    pub fn well_formed(&self) -> (r: bool)
        ensures
            r == self.wf(),
    {
        self.x <= usize::MAX - self.width && self.y <= usize::MAX - self.height
    }

    pub fn right_edge(&self) -> (r: usize)
        requires
            self.wf(),
        ensures
            r == self.spec_right_edge(),
    {
        self.width + self.x
    }

    pub fn left_edge(&self) -> (r: usize)
        ensures
            r == self.spec_left_edge(),
    {
        self.x
    }

    pub fn top_edge(&self) -> (r: usize)
        ensures
            r == self.spec_top_edge(),
    {
        self.y
    }

    pub fn bottom_edge(&self) -> (r: usize)
        requires
            self.wf(),
        ensures
            r == self.spec_bottom_edge(),
    {
        self.height + self.y
    }

    /// The adjacency test, one edge inequality per direction: the child has
    /// room to move further in `dir` without leaving the parent's bounds.
    pub open spec fn spec_child_can_move(self, child: Geometry, dir: ShiftDirection) -> bool {
        match dir {
            ShiftDirection::Right => self.spec_right_edge() > child.spec_right_edge(),
            ShiftDirection::Left => self.spec_left_edge() < child.spec_left_edge(),
            ShiftDirection::Up => self.spec_top_edge() < child.spec_top_edge(),
            ShiftDirection::Down => self.spec_bottom_edge() > child.spec_bottom_edge(),
        }
    }

    /// Tests whether `child` is not yet flush against this rectangle's edge
    /// in direction `dir`, i.e. a move that way stays inside `self`.
    pub fn child_can_move(&self, child: &Geometry, dir: ShiftDirection) -> (r: bool)
        requires
            self.wf(),
            child.wf(),
        ensures
            r == self.spec_child_can_move(*child, dir),
    {
        match dir {
            ShiftDirection::Right => self.right_edge() > child.right_edge(),
            ShiftDirection::Left => self.left_edge() < child.left_edge(),
            ShiftDirection::Up => self.top_edge() < child.top_edge(),
            ShiftDirection::Down => self.bottom_edge() > child.bottom_edge(),
        }
    }
}

/// Field separators of the textual rectangle form.
pub open spec fn is_geom_sep(b: u8) -> bool {
    b == 120u8 || b == 43u8
}

pub open spec fn is_ascii_digit(b: u8) -> bool {
    48u8 <= b && b <= 57u8
}

/// Number of leading non-separator bytes of `s`.
pub open spec fn first_sep(s: Seq<u8>) -> nat
    decreases s.len(),
{
    if s.len() == 0 {
        0
    } else if is_geom_sep(s[0]) {
        0
    } else {
        1 + first_sep(s.drop_first())
    }
}

/// The value of a sequence of ASCII digits read as a decimal number.
pub open spec fn digits_val(s: Seq<u8>) -> int
    decreases s.len(),
{
    if s.len() == 0 {
        0
    } else {
        digits_val(s.drop_last()) * 10 + (s.last() - 48u8)
    }
}

pub open spec fn all_digits(s: Seq<u8>) -> bool {
    forall|i: int| 0 <= i < s.len() ==> is_ascii_digit(#[trigger] s[i])
}

/// A field parses as a `usize`: non-empty, all digits, and in range.
pub open spec fn valid_field(s: Seq<u8>) -> bool {
    s.len() > 0 && all_digits(s) && digits_val(s) <= usize::MAX
}

/// The decimal values of the `x`/`+`-separated fields of `s` from byte `i`
/// on, or `None` if any field fails to parse as a `usize`.
pub open spec fn spec_fields_from(s: Seq<u8>, i: int) -> Option<Seq<int>>
    decreases s.len() - i,
{
    let j = i + first_sep(s.skip(i));
    let f = s.subrange(i, j);
    if i < 0 || i > s.len() || !valid_field(f) {
        None
    } else if j >= s.len() {
        Some(seq![digits_val(f)])
    } else {
        match spec_fields_from(s, j + 1) {
            None => None,
            Some(rest) => Some(seq![digits_val(f)] + rest),
        }
    }
}

/// What the textual rectangle form denotes: the first four field values as
/// `{width, height, x, y}`, provided every field parses and at least four
/// are present.
pub open spec fn spec_parse_geometry(s: Seq<u8>) -> Option<Geometry> {
    match spec_fields_from(s, 0) {
        None => None,
        Some(vs) => if vs.len() >= 4 {
            Some(
                (Geometry {
                    width: vs[0] as usize,
                    height: vs[1] as usize,
                    x: vs[2] as usize,
                    y: vs[3] as usize,
                }),
            )
        } else {
            None
        },
    }
}

/// Bounds of the leading non-separator span: it ends at the first separator
/// or at the end of the sequence.
proof fn lemma_first_sep(s: Seq<u8>)
    ensures
        first_sep(s) <= s.len(),
        forall|k: int| 0 <= k < first_sep(s) ==> !is_geom_sep(#[trigger] s[k]),
        first_sep(s) < s.len() ==> is_geom_sep(s[first_sep(s) as int]),
    decreases s.len(),
{
    if s.len() > 0 && !is_geom_sep(s[0]) {
        lemma_first_sep(s.drop_first());
        assert forall|k: int| 0 <= k < first_sep(s) implies !is_geom_sep(#[trigger] s[k]) by {
            if k > 0 {
                assert(s.drop_first()[k - 1] == s[k]);
            }
        }
        if first_sep(s) < s.len() {
            assert(s.drop_first()[first_sep(s.drop_first()) as int] == s[first_sep(s) as int]);
        }
    }
}

/// Appending a digit on the right multiplies the value by ten and adds it.
proof fn lemma_digits_val_push(s: Seq<u8>, d: u8)
    ensures
        digits_val(s.push(d)) == digits_val(s) * 10 + (d - 48u8),
{
    assert(s.push(d).drop_last() =~= s);
}

/// A decimal number only grows as digits are appended on the right.
proof fn lemma_digits_val_prefix_le(s: Seq<u8>, n: int)
    requires
        0 <= n <= s.len(),
        all_digits(s),
    ensures
        digits_val(s.take(n)) <= digits_val(s),
        0 <= digits_val(s),
    decreases s.len() - n,
{
    if n == s.len() {
        assert(s.take(n) =~= s);
        lemma_digits_val_nonneg(s);
    } else {
        lemma_digits_val_prefix_le(s, n + 1);
        lemma_digits_val_nonneg(s.take(n));
        assert(s.take(n + 1).drop_last() =~= s.take(n));
        assert(digits_val(s.take(n + 1)) == digits_val(s.take(n)) * 10 + (s[n] - 48u8));
    }
}

proof fn lemma_digits_val_nonneg(s: Seq<u8>)
    requires
        all_digits(s),
    ensures
        0 <= digits_val(s),
    decreases s.len(),
{
    if s.len() > 0 {
        assert(all_digits(s.drop_last())) by {
            assert(forall|i: int|
                0 <= i < s.len() - 1 ==> #[trigger] s.drop_last()[i] == s[i]);
        }
        lemma_digits_val_nonneg(s.drop_last());
    }
}

/// Reads one decimal field of `s` starting at `i`: its value and the index
/// just past it, or `None` if the field is empty, holds a non-digit, or
/// overflows `usize`.
fn scan_field(s: &[u8], i: usize) -> (r: Option<(usize, usize)>)
    requires
        i <= s@.len(),
    ensures
        ({
            let j = i + first_sep(s@.skip(i as int));
            let f = s@.subrange(i as int, j as int);
            match r {
                Some((v, e)) => e == j && valid_field(f) && v == digits_val(f),
                None => !valid_field(f),
            }
        }),
{
    proof {
        lemma_first_sep(s@.skip(i as int));
    }
    let ghost j: int = i + first_sep(s@.skip(i as int));
    let ghost f: Seq<u8> = s@.subrange(i as int, j);
    let mut k: usize = i;
    let mut val: usize = 0;
    loop
        invariant
            i <= k <= j <= s@.len(),
            j == i + first_sep(s@.skip(i as int)),
            f == s@.subrange(i as int, j),
            forall|t: int| 0 <= t < first_sep(s@.skip(i as int)) ==> !is_geom_sep(
                #[trigger] s@.skip(i as int)[t],
            ),
            j < s@.len() ==> is_geom_sep(s@[j]),
            all_digits(f.take(k - i)),
            val == digits_val(f.take(k - i)),
        decreases j - k,
    {
        if k == s.len() || (s[k] == 120u8 || s[k] == 43u8) {
            proof {
                assert(k - i >= first_sep(s@.skip(i as int))) by {
                    if k - i < first_sep(s@.skip(i as int)) {
                        assert(s@.skip(i as int)[k - i] == s@[k as int]);
                    }
                }
                assert(k == j);
                assert(f.take(k - i) =~= f);
            }
            if k == i {
                return None;
            }
            return Some((val, k));
        }
        proof {
            assert(s@.skip(i as int)[k - i] == s@[k as int]);
            assert(k < j);
            assert(f[k - i] == s@[k as int]);
        }
        let d = s[k];
        if !(48u8 <= d && d <= 57u8) {
            proof {
                assert(!all_digits(f));
            }
            return None;
        }
        let dv = (d - 48u8) as usize;
        if val > (usize::MAX - dv) / 10 {
            proof {
                assert(f.take(k - i).push(d) =~= f.take(k + 1 - i));
                lemma_digits_val_push(f.take(k - i), d);
                assert(val * 10 + dv > usize::MAX) by (nonlinear_arith)
                    requires
                        val > (usize::MAX - dv) / 10,
                        dv <= 9,
                {}
                assert(digits_val(f.take(k + 1 - i)) > usize::MAX);
                if valid_field(f) {
                    lemma_digits_val_prefix_le(f, k + 1 - i);
                    assert(digits_val(f) > usize::MAX);
                }
            }
            return None;
        }
        proof {
            assert(val * 10 + dv <= usize::MAX) by (nonlinear_arith)
                requires
                    val <= (usize::MAX - dv) / 10,
                    dv <= 9,
            {}
            assert(f.take(k - i).push(d) =~= f.take(k + 1 - i));
            lemma_digits_val_push(f.take(k - i), d);
        }
        val = val * 10 + dv;
        k = k + 1;
    }
}

impl Geometry {
    /// Parses the textual rectangle form `<width>x<height>+<x>+<y>`: four
    /// (or more) decimal fields separated by `x` or `+`; every field must
    /// parse as a `usize` and the first four become the rectangle.
    pub fn from_str(s: &[u8]) -> (r: Result<Geometry, ShiftError>)
        ensures
            match r {
                Ok(g) => spec_parse_geometry(s@) == Some(g),
                Err(e) => spec_parse_geometry(s@) == None::<Geometry> && e
                    == ShiftError::MalformedGeometry,
            },
    {
        let mut vals: Vec<usize> = Vec::new();
        let mut i: usize = 0;
        loop
            invariant_except_break
                i <= s@.len(),
                match spec_fields_from(s@, i as int) {
                    None => spec_fields_from(s@, 0) == None::<Seq<int>>,
                    Some(rest) => {
                        &&& spec_fields_from(s@, 0) matches Some(all)
                        &&& all == vals@.map_values(|v: usize| v as int) + rest
                    },
                },
            ensures
                match spec_fields_from(s@, 0) {
                    None => false,
                    Some(all) => all == vals@.map_values(|v: usize| v as int),
                },
            decreases s@.len() - i,
        {
            match scan_field(s, i) {
                None => {
                    proof {
                        reveal_with_fuel(spec_fields_from, 1);
                    }
                    return Err(ShiftError::MalformedGeometry);
                },
                Some((v, e)) => {
                    proof {
                        reveal_with_fuel(spec_fields_from, 1);
                        lemma_first_sep(s@.skip(i as int));
                    }
                    let ghost old_vals = vals@;
                    vals.push(v);
                    proof {
                        assert(vals@.map_values(|x: usize| x as int) =~= old_vals.map_values(
                            |x: usize| x as int,
                        ) + seq![v as int]);
                    }
                    if e >= s.len() {
                        proof {
                            if spec_fields_from(s@, 0) is Some {
                                let all = spec_fields_from(s@, 0)->Some_0;
                                assert(all =~= old_vals.map_values(|x: usize| x as int) + seq![
                                    v as int,
                                ]);
                            }
                        }
                        break ;
                    }
                    proof {
                        if spec_fields_from(s@, e + 1) is Some && spec_fields_from(s@, 0)
                            is Some {
                            let rest = spec_fields_from(s@, e + 1)->Some_0;
                            let all = spec_fields_from(s@, 0)->Some_0;
                            assert(all =~= vals@.map_values(|x: usize| x as int) + rest);
                        }
                    }
                    i = e + 1;
                },
            }
        }
        if vals.len() >= 4 {
            let g = Geometry { width: vals[0], height: vals[1], x: vals[2], y: vals[3] };
            proof {
                let all = spec_fields_from(s@, 0).unwrap();
                assert(all[0] == vals@[0] as int);
                assert(all[1] == vals@[1] as int);
                assert(all[2] == vals@[2] as int);
                assert(all[3] == vals@[3] as int);
            }
            Ok(g)
        } else {
            Err(ShiftError::MalformedGeometry)
        }
    }
}

} // verus!
