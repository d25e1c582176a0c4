use vstd::prelude::*;
use vstd::std_specs::cmp::PartialEqSpec;
use vstd::string::*;
use super::strs::{bytes, string_bytes};

verus! {

/// One step of an edit script from `a` to `b`.
#[derive(Debug, Clone, Copy)]
pub enum DiffEdit {
    Insert { b_index: usize },
    Delete,
    Substite { b_index: usize },
    Match,
}

/// Whether `x` equals `y` as `T`'s `==` says.
pub open spec fn same<T: PartialEq>(x: T, y: T) -> bool {
    x.eq_spec(&y)
}

/// The edit distance between the first `i` items of `a` and the first `j` items of `b`.
pub open spec fn distance<T: PartialEq>(a: Seq<T>, b: Seq<T>, i: int, j: int) -> nat
    decreases i + j,
{
    if i <= 0 {
        if j <= 0 { 0 } else { j as nat }
    } else if j <= 0 {
        i as nat
    } else if same(a[i - 1], b[j - 1]) {
        distance(a, b, i - 1, j - 1)
    } else {
        let del = distance(a, b, i - 1, j);
        let ins = distance(a, b, i, j - 1);
        let sub = distance(a, b, i - 1, j - 1);
        let m = if del <= ins { del } else { ins };
        (if m <= sub { m } else { sub }) + 1
    }
}

/// The step that the walk back from `(i, j)` takes.
pub open spec fn back_step<T: PartialEq>(a: Seq<T>, b: Seq<T>, i: int, j: int) -> DiffEdit {
    let current = distance(a, b, i, j);
    let deletion = distance(a, b, i - 1, j);
    let insertion = distance(a, b, i, j - 1);
    let substitution = distance(a, b, i - 1, j - 1);
    if deletion < insertion {
        if deletion < substitution {
            DiffEdit::Delete
        } else if substitution != current {
            DiffEdit::Substite { b_index: (j - 1) as usize }
        } else {
            DiffEdit::Match
        }
    } else if insertion < substitution {
        DiffEdit::Insert { b_index: (j - 1) as usize }
    } else if substitution != current {
        DiffEdit::Substite { b_index: (j - 1) as usize }
    } else {
        DiffEdit::Match
    }
}

/// How a step moves back through the two sequences.
pub open spec fn step_di(e: DiffEdit) -> int {
    match e {
        DiffEdit::Insert { .. } => 0,
        _ => 1,
    }
}

/// How a step moves back through `b`.
pub open spec fn step_dj(e: DiffEdit) -> int {
    match e {
        DiffEdit::Delete => 0,
        _ => 1,
    }
}

/// The edits, in order, along the walk back from `(i, j)` until one side is used up.
pub open spec fn back_edits<T: PartialEq>(a: Seq<T>, b: Seq<T>, i: int, j: int) -> Seq<DiffEdit>
    decreases i + j,
{
    if i > 0 && j > 0 {
        let e = back_step(a, b, i, j);
        back_edits(a, b, i - step_di(e), j - step_dj(e)).push(e)
    } else {
        Seq::empty()
    }
}

/// Where the walk back from `(i, j)` stops.
pub open spec fn back_end<T: PartialEq>(a: Seq<T>, b: Seq<T>, i: int, j: int) -> (int, int)
    decreases i + j,
{
    if i > 0 && j > 0 {
        let e = back_step(a, b, i, j);
        back_end(a, b, i - step_di(e), j - step_dj(e))
    } else {
        (i, j)
    }
}

/// Whether a step may stand where `j` items of `b` are left: an insertion or a substitution
/// names the last of them.
pub open spec fn names_b(e: DiffEdit, j: int) -> bool {
    match e {
        DiffEdit::Insert { b_index } => b_index == j - 1,
        DiffEdit::Substite { b_index } => b_index == j - 1,
        _ => true,
    }
}

/// Where a script, read from its last step back to its first, leads from `(i, j)`: each step
/// is taken while both sides have items left, a deletion moves back in `a`, an insertion in
/// `b`, the others in both. `None` where a step does not fit there.
pub open spec fn walk_back(edits: Seq<DiffEdit>, i: int, j: int) -> Option<(int, int)>
    decreases edits.len(),
{
    if edits.len() == 0 {
        Some((i, j))
    } else {
        let e = edits.last();
        if i > 0 && j > 0 && names_b(e, j) {
            walk_back(edits.drop_last(), i - step_di(e), j - step_dj(e))
        } else {
            None
        }
    }
}

/// A step put before a script is walked after it.
proof fn lemma_walk_back_prepend(e: DiffEdit, r: Seq<DiffEdit>, i: int, j: int)
    ensures
        walk_back(seq![e] + r, i, j) == match walk_back(r, i, j) {
            Some((p, q)) => walk_back(seq![e], p, q),
            None => None,
        },
    decreases r.len(),
{
    if r.len() == 0 {
        assert(seq![e] + r =~= seq![e]);
    } else {
        let s = seq![e] + r;
        assert(s.last() == r.last());
        assert(s.drop_last() =~= seq![e] + r.drop_last());
        let l = r.last();
        if i > 0 && j > 0 && names_b(l, j) {
            lemma_walk_back_prepend(e, r.drop_last(), i - step_di(l), j - step_dj(l));
        }
    }
}

/// The edit distance between the first `i` items of `a` and the first `j` items of `b`, where
/// `eq` says which items are equal.
pub open spec fn distance_by<T>(a: Seq<T>, b: Seq<T>, eq: spec_fn(T, T) -> bool, i: int, j: int) -> nat
    decreases i + j,
{
    if i <= 0 {
        if j <= 0 { 0 } else { j as nat }
    } else if j <= 0 {
        i as nat
    } else if eq(a[i - 1], b[j - 1]) {
        distance_by(a, b, eq, i - 1, j - 1)
    } else {
        let del = distance_by(a, b, eq, i - 1, j);
        let ins = distance_by(a, b, eq, i, j - 1);
        let sub = distance_by(a, b, eq, i - 1, j - 1);
        let m = if del <= ins { del } else { ins };
        (if m <= sub { m } else { sub }) + 1
    }
}

/// The step that the walk back from `(i, j)` takes, where `eq` says which items are equal.
pub open spec fn back_step_by<T>(a: Seq<T>, b: Seq<T>, eq: spec_fn(T, T) -> bool, i: int, j: int) -> DiffEdit {
    let current = distance_by(a, b, eq, i, j);
    let deletion = distance_by(a, b, eq, i - 1, j);
    let insertion = distance_by(a, b, eq, i, j - 1);
    let substitution = distance_by(a, b, eq, i - 1, j - 1);
    if deletion < insertion {
        if deletion < substitution {
            DiffEdit::Delete
        } else if substitution != current {
            DiffEdit::Substite { b_index: (j - 1) as usize }
        } else {
            DiffEdit::Match
        }
    } else if insertion < substitution {
        DiffEdit::Insert { b_index: (j - 1) as usize }
    } else if substitution != current {
        DiffEdit::Substite { b_index: (j - 1) as usize }
    } else {
        DiffEdit::Match
    }
}

/// The edits along the walk back from `(i, j)`, where `eq` says which items are equal.
pub open spec fn back_edits_by<T>(a: Seq<T>, b: Seq<T>, eq: spec_fn(T, T) -> bool, i: int, j: int) -> Seq<DiffEdit>
    decreases i + j,
{
    if i > 0 && j > 0 {
        let e = back_step_by(a, b, eq, i, j);
        back_edits_by(a, b, eq, i - step_di(e), j - step_dj(e)).push(e)
    } else {
        Seq::empty()
    }
}

/// The script the walk back gives for two sequences of lines, lines being equal where their
/// characters are.
pub open spec fn line_diff_spec(a: Seq<Seq<char>>, b: Seq<Seq<char>>) -> Seq<DiffEdit> {
    back_edits_by(a, b, |x: Seq<char>, y: Seq<char>| x == y, a.len() as int, b.len() as int)
}

/// Distances under `T`'s `==` are distances under `same`.
proof fn lemma_distance_by_same<T: PartialEq>(a: Seq<T>, b: Seq<T>, i: int, j: int)
    ensures
        distance(a, b, i, j) == distance_by(a, b, |x: T, y: T| same(x, y), i, j),
    decreases i + j,
{
    if i > 0 && j > 0 {
        lemma_distance_by_same(a, b, i - 1, j - 1);
        lemma_distance_by_same(a, b, i - 1, j);
        lemma_distance_by_same(a, b, i, j - 1);
    }
}

/// The walk under `T`'s `==` is the walk under `same`.
proof fn lemma_back_edits_by_same<T: PartialEq>(a: Seq<T>, b: Seq<T>, i: int, j: int)
    ensures
        back_edits(a, b, i, j) == back_edits_by(a, b, |x: T, y: T| same(x, y), i, j),
    decreases i + j,
{
    if i > 0 && j > 0 {
        lemma_distance_by_same(a, b, i, j);
        lemma_distance_by_same(a, b, i - 1, j);
        lemma_distance_by_same(a, b, i, j - 1);
        lemma_distance_by_same(a, b, i - 1, j - 1);
        let e = back_step(a, b, i, j);
        assert(e == back_step_by(a, b, |x: T, y: T| same(x, y), i, j));
        lemma_back_edits_by_same(a, b, i - step_di(e), j - step_dj(e));
    }
}

/// Two pairs of sequences whose items compare alike have the same distances.
proof fn lemma_distance_by_alike<T, U>(
    a: Seq<T>,
    b: Seq<T>,
    ea: spec_fn(T, T) -> bool,
    c: Seq<U>,
    d: Seq<U>,
    ec: spec_fn(U, U) -> bool,
    i: int,
    j: int,
)
    requires
        a.len() == c.len(),
        b.len() == d.len(),
        i <= a.len(),
        j <= b.len(),
        forall|p: int, q: int| 0 <= p < a.len() && 0 <= q < b.len() ==> ea(a[p], b[q]) == ec(c[p], d[q]),
    ensures
        distance_by(a, b, ea, i, j) == distance_by(c, d, ec, i, j),
    decreases i + j,
{
    if i > 0 && j > 0 {
        lemma_distance_by_alike(a, b, ea, c, d, ec, i - 1, j - 1);
        lemma_distance_by_alike(a, b, ea, c, d, ec, i - 1, j);
        lemma_distance_by_alike(a, b, ea, c, d, ec, i, j - 1);
        assert(ea(a[i - 1], b[j - 1]) == ec(c[i - 1], d[j - 1]));
    }
}

/// Two pairs of sequences whose items compare alike have the same walk back.
proof fn lemma_back_edits_by_alike<T, U>(
    a: Seq<T>,
    b: Seq<T>,
    ea: spec_fn(T, T) -> bool,
    c: Seq<U>,
    d: Seq<U>,
    ec: spec_fn(U, U) -> bool,
    i: int,
    j: int,
)
    requires
        a.len() == c.len(),
        b.len() == d.len(),
        i <= a.len(),
        j <= b.len(),
        forall|p: int, q: int| 0 <= p < a.len() && 0 <= q < b.len() ==> ea(a[p], b[q]) == ec(c[p], d[q]),
    ensures
        back_edits_by(a, b, ea, i, j) == back_edits_by(c, d, ec, i, j),
    decreases i + j,
{
    if i > 0 && j > 0 {
        lemma_distance_by_alike(a, b, ea, c, d, ec, i, j);
        lemma_distance_by_alike(a, b, ea, c, d, ec, i - 1, j);
        lemma_distance_by_alike(a, b, ea, c, d, ec, i, j - 1);
        lemma_distance_by_alike(a, b, ea, c, d, ec, i - 1, j - 1);
        let e = back_step_by(a, b, ea, i, j);
        assert(e == back_step_by(c, d, ec, i, j));
        lemma_back_edits_by_alike(a, b, ea, c, d, ec, i - step_di(e), j - step_dj(e));
    }
}

/// A line, compared with another by its characters.
struct LineKey {
    text: String,
}

impl PartialEq for LineKey {
    fn eq(&self, other: &Self) -> (r: bool) {
        self.text == other.text
    }
}

impl vstd::std_specs::cmp::PartialEqSpecImpl for LineKey {
    open spec fn obeys_eq_spec() -> bool {
        true
    }

    closed spec fn eq_spec(&self, other: &Self) -> bool {
        self.text@ == other.text@
    }
}

/// Computes an edit script from the lines `a` to the lines `b`, lines being equal where their
/// characters are, as `myers_diff` does.
pub fn line_diff(a: &[String], b: &[String]) -> (edits: Vec<DiffEdit>)
    requires
        (a@.len() + 1) * (b@.len() + 1) <= usize::MAX,
    ensures
        edits@ == line_diff_spec(a@.map_values(|l: String| l@), b@.map_values(|l: String| l@)),
{
    let mut ka: Vec<LineKey> = Vec::new();
    let mut k: usize = 0;
    while k < a.len()
        invariant
            k <= a@.len(),
            ka@.len() == k,
            forall|p: int| 0 <= p < k ==> (#[trigger] ka@[p]).text@ == a@[p]@,
        decreases a@.len() - k,
    {
        ka.push(LineKey { text: a[k].clone() });
        k = k + 1;
    }
    let mut kb: Vec<LineKey> = Vec::new();
    let mut k: usize = 0;
    while k < b.len()
        invariant
            k <= b@.len(),
            kb@.len() == k,
            forall|p: int| 0 <= p < k ==> (#[trigger] kb@[p]).text@ == b@[p]@,
        decreases b@.len() - k,
    {
        kb.push(LineKey { text: b[k].clone() });
        k = k + 1;
    }
    let edits = myers_diff(ka.as_slice(), kb.as_slice());
    proof {
        let ta = a@.map_values(|l: String| l@);
        let tb = b@.map_values(|l: String| l@);
        lemma_back_edits_by_same(ka@, kb@, ka@.len() as int, kb@.len() as int);
        lemma_back_edits_by_alike(
            ka@,
            kb@,
            |x: LineKey, y: LineKey| same(x, y),
            ta,
            tb,
            |x: Seq<char>, y: Seq<char>| x == y,
            ka@.len() as int,
            kb@.len() as int,
        );
    }
    edits
}

/// The script `myers_diff` computes for `a` and `b`.
pub open spec fn diff_spec<T: PartialEq>(a: Seq<T>, b: Seq<T>) -> Seq<DiffEdit> {
    back_edits(a, b, a.len() as int, b.len() as int)
}

/// A distance is at most the sum of the lengths.
pub proof fn lemma_distance_bound<T: PartialEq>(a: Seq<T>, b: Seq<T>, i: int, j: int)
    requires
        0 <= i,
        0 <= j,
    ensures
        distance(a, b, i, j) <= i + j,
    decreases i + j,
{
    if i > 0 && j > 0 {
        lemma_distance_bound(a, b, i - 1, j - 1);
        lemma_distance_bound(a, b, i - 1, j);
        lemma_distance_bound(a, b, i, j - 1);
    }
}

/// Whether the cell `(p, q)` is computed once the filling has reached `(i, j)`.
pub open spec fn filled(p: int, q: int, i: int, j: int) -> bool {
    p < i || q == 0 || (p == i && q < j)
}

/// The cell of `(i, j)` in a matrix of rows of `width` cells.
pub open spec fn cell(width: int, i: int, j: int) -> int {
    j + i * width
}

fn index(width: usize, i: usize, j: usize) -> (r: usize)
    requires
        j + i * width <= usize::MAX,
    ensures
        r == cell(width as int, i as int, j as int),
{
    j + i * width
}

proof fn lemma_cell_bounds(width: int, height: int, i: int, j: int)
    requires
        0 <= i < height,
        0 <= j < width,
    ensures
        0 <= cell(width, i, j) < height * width,
        cell(width, i, j) + width == cell(width, i + 1, j),
{
    assert(i * width <= (height - 1) * width) by (nonlinear_arith)
        requires
            0 <= i < height,
            0 <= width,
    ;
    assert((height - 1) * width + width == height * width) by (nonlinear_arith);
    assert(0 <= i * width) by (nonlinear_arith)
        requires
            0 <= i,
            0 <= width,
    ;
    assert((i + 1) * width == i * width + width) by (nonlinear_arith);
}

proof fn lemma_cell_injective(width: int, i1: int, j1: int, i2: int, j2: int)
    requires
        0 <= j1 < width,
        0 <= j2 < width,
        0 <= i1,
        0 <= i2,
        cell(width, i1, j1) == cell(width, i2, j2),
    ensures
        i1 == i2 && j1 == j2,
{
    if i1 < i2 {
        assert(i1 * width + width <= i2 * width) by (nonlinear_arith)
            requires
                i1 < i2,
                0 <= width,
        ;
    } else if i2 < i1 {
        assert(i2 * width + width <= i1 * width) by (nonlinear_arith)
            requires
                i2 < i1,
                0 <= width,
        ;
    }
}

/// Computes an edit script from `a` to `b` by walking back through the table of edit
/// distances of their prefixes, from the two ends until one side is used up.
pub fn myers_diff<T: PartialEq>(a: &[T], b: &[T]) -> (edits: Vec<DiffEdit>)
    requires
        (a@.len() + 1) * (b@.len() + 1) <= usize::MAX,
    ensures
        walk_back(edits@, a@.len() as int, b@.len() as int) matches Some((i, j)) && (i == 0 || j == 0),
        T::obeys_eq_spec() ==> edits@ == diff_spec(a@, b@),
{
    proof {
        let x = a@.len() as int;
        let y = b@.len() as int;
        assert((x + 1) * (y + 1) >= x + y + 1) by (nonlinear_arith)
            requires
                x >= 0,
                y >= 0,
        ;
    }
    let height = a.len() + 1;
    let width = b.len() + 1;
    let ghost ha = a@;
    let ghost hb = b@;
    proof {
        assert(height * width >= width) by (nonlinear_arith)
            requires
                height >= 1,
                width >= 0,
        ;
        assert(height * width >= height) by (nonlinear_arith)
            requires
                width >= 1,
                height >= 0,
        ;
    }
    let total = height * width;
    let mut matrix: Vec<usize> = Vec::new();
    let mut f: usize = 0;
    while f < total
        invariant
            f <= total,
            matrix@.len() == f,
            forall|k: int| 0 <= k < f ==> matrix@[k] == 0,
        decreases total - f,
    {
        matrix.push(0);
        f = f + 1;
    }
    let mut i: usize = 1;
    while i <= b.len()
        invariant
            1 <= i <= width,
            width == b@.len() + 1,
            total == height * width,
            width <= total,
            matrix@.len() == total,
            matrix@[0] == 0,
            forall|k: int| 1 <= k < i ==> matrix@[k] == k,
        decreases width - i,
    {
        matrix.set(i, i);
        i = i + 1;
    }
    let mut i: usize = 1;
    while i <= a.len()
        invariant
            1 <= i <= height,
            width == b@.len() + 1,
            height == a@.len() + 1,
            total == height * width,
            matrix@.len() == total,
            matrix@[0] == 0,
            forall|k: int| 1 <= k < width ==> matrix@[k] == k,
            forall|p: int| 1 <= p < i ==> matrix@[cell(width as int, p, 0)] == p,
        decreases height - i,
    {
        proof {
            lemma_cell_bounds(width as int, height as int, i as int, 0);
            assert(cell(width as int, i as int, 0) >= width) by (nonlinear_arith)
                requires
                    i >= 1,
                    width >= 0,
            ;
            assert forall|p: int| 1 <= p < i implies #[trigger] cell(width as int, p, 0) != cell(width as int, i as int, 0) by {
                if cell(width as int, p, 0) == cell(width as int, i as int, 0) {
                    lemma_cell_injective(width as int, p, 0, i as int, 0);
                }
            }
        }
        let ghost before = matrix@;
        matrix.set(index(width, i, 0), i);
        proof {
            assert forall|p: int| 1 <= p < i + 1 implies matrix@[cell(width as int, p, 0)] == p by {
                if p < i {
                    assert(cell(width as int, p, 0) != cell(width as int, i as int, 0));
                    lemma_cell_bounds(width as int, height as int, p, 0);
                    assert(matrix@[cell(width as int, p, 0)] == before[cell(width as int, p, 0)]);
                }
            }
        }
        i = i + 1;
    }
    // Filling: every cell (p, q) before (i, j) in row order holds distance(p, q).
    proof {
        lemma_cell_bounds(width as int, height as int, 0, 0);
    }
    let mut i: usize = 1;
    while i < height
        invariant
            1 <= i <= height,
            width == b@.len() + 1,
            height == a@.len() + 1,
            ha == a@,
            hb == b@,
            total == height * width,
            total <= usize::MAX,
            a@.len() + b@.len() + 1 <= total,
            matrix@.len() == total,
            forall|p: int, q: int| 0 <= p < height && 0 <= q < width && filled(p, q, i as int, 0)
                ==> #[trigger] matrix@[cell(width as int, p, q)] <= p + q,
            T::obeys_eq_spec() ==> forall|p: int, q: int| 0 <= p < height && 0 <= q < width && filled(p, q, i as int, 0)
                ==> #[trigger] matrix@[cell(width as int, p, q)] == distance(ha, hb, p, q),
        decreases height - i,
    {
        let mut j: usize = 1;
        while j < width
            invariant
                1 <= i < height,
                1 <= j <= width,
                width == b@.len() + 1,
                height == a@.len() + 1,
                ha == a@,
                hb == b@,
                total == height * width,
                total <= usize::MAX,
                a@.len() + b@.len() + 1 <= total,
                matrix@.len() == total,
                forall|p: int, q: int| 0 <= p < height && 0 <= q < width && filled(p, q, i as int, j as int)
                    ==> #[trigger] matrix@[cell(width as int, p, q)] <= p + q,
                T::obeys_eq_spec() ==> forall|p: int, q: int| 0 <= p < height && 0 <= q < width && filled(p, q, i as int, j as int)
                    ==> #[trigger] matrix@[cell(width as int, p, q)] == distance(ha, hb, p, q),
            decreases width - j,
        {
            proof {
                lemma_cell_bounds(width as int, height as int, i as int, j as int);
                lemma_cell_bounds(width as int, height as int, i - 1, j as int);
                lemma_cell_bounds(width as int, height as int, i as int, j - 1);
                lemma_cell_bounds(width as int, height as int, i - 1, j - 1);
                assert(filled(i - 1, j as int, i as int, j as int));
                assert(filled(i as int, j - 1, i as int, j as int));
                assert(filled(i - 1, j - 1, i as int, j as int));
            }
            let here = index(width, i, j);
            let value = if a[i - 1] == b[j - 1] {
                matrix[index(width, i - 1, j - 1)]
            } else {
                let deletion = matrix[index(width, i - 1, j)] + 1;
                let insertion = matrix[index(width, i, j - 1)] + 1;
                let substitution = matrix[index(width, i - 1, j - 1)] + 1;
                let m = if deletion <= insertion { deletion } else { insertion };
                if m <= substitution { m } else { substitution }
            };
            let ghost before = matrix@;
            matrix.set(here, value);
            proof {
                assert forall|p: int, q: int| 0 <= p < height && 0 <= q < width && filled(p, q, i as int, j + 1)
                    implies #[trigger] matrix@[cell(width as int, p, q)] <= p + q
                    && (T::obeys_eq_spec() ==> matrix@[cell(width as int, p, q)] == distance(ha, hb, p, q)) by {
                    lemma_cell_bounds(width as int, height as int, p, q);
                    if p == i && q == j {
                    } else {
                        if cell(width as int, p, q) == cell(width as int, i as int, j as int) {
                            lemma_cell_injective(width as int, p, q, i as int, j as int);
                        }
                        assert(filled(p, q, i as int, j as int));
                        assert(matrix@[cell(width as int, p, q)] == before[cell(width as int, p, q)]);
                    }
                }
            }
            j = j + 1;
        }
        proof {
            assert forall|p: int, q: int| 0 <= p < height && 0 <= q < width && filled(p, q, i + 1, 0)
                implies filled(p, q, i as int, j as int) by {
            }
        }
        i = i + 1;
    }
    proof {
        assert forall|p: int, q: int| 0 <= p < height && 0 <= q < width implies filled(p, q, height as int, 0) by {
        }
    }
    let mut edits: Vec<DiffEdit> = Vec::new();
    let mut i = a.len();
    let mut j = b.len();
    proof {
        assert(edits@.reverse() =~= Seq::<DiffEdit>::empty());
        assert(edits@.reverse() =~= Seq::<DiffEdit>::empty());
        assert(back_edits(ha, hb, i as int, j as int) + edits@.reverse() =~= back_edits(ha, hb, i as int, j as int));
    }
    while i > 0 && j > 0
        invariant
            i <= a@.len(),
            j <= b@.len(),
            width == b@.len() + 1,
            height == a@.len() + 1,
            ha == a@,
            hb == b@,
            total == height * width,
            matrix@.len() == total,
            forall|p: int, q: int| 0 <= p < height && 0 <= q < width && filled(p, q, height as int, 0)
                ==> #[trigger] matrix@[cell(width as int, p, q)] <= p + q,
            T::obeys_eq_spec() ==> forall|p: int, q: int| 0 <= p < height && 0 <= q < width && filled(p, q, height as int, 0)
                ==> #[trigger] matrix@[cell(width as int, p, q)] == distance(ha, hb, p, q),
            forall|p: int, q: int| 0 <= p < height && 0 <= q < width ==> filled(p, q, height as int, 0),
            T::obeys_eq_spec() ==> diff_spec(ha, hb) == back_edits(ha, hb, i as int, j as int) + edits@.reverse(),
            walk_back(edits@.reverse(), a@.len() as int, b@.len() as int) == Some((i as int, j as int)),
        decreases i + j,
    {
        proof {
            lemma_cell_bounds(width as int, height as int, i as int, j as int);
            lemma_cell_bounds(width as int, height as int, i - 1, j as int);
            lemma_cell_bounds(width as int, height as int, i as int, j - 1);
            lemma_cell_bounds(width as int, height as int, i - 1, j - 1);
        }
        let current = matrix[index(width, i, j)];
        let deletion = matrix[index(width, i - 1, j)];
        let insertion = matrix[index(width, i, j - 1)];
        let substitution = matrix[index(width, i - 1, j - 1)];
        let ghost old_edits = edits@;
        let edit = if deletion < insertion {
            if deletion < substitution {
                DiffEdit::Delete
            } else if substitution != current {
                DiffEdit::Substite { b_index: j - 1 }
            } else {
                DiffEdit::Match
            }
        } else if insertion < substitution {
            DiffEdit::Insert { b_index: j - 1 }
        } else if substitution != current {
            DiffEdit::Substite { b_index: j - 1 }
        } else {
            DiffEdit::Match
        };
        edits.push(edit);
        proof {
            assert(edits@.reverse() =~= seq![edit] + old_edits.reverse());
            lemma_walk_back_prepend(edit, old_edits.reverse(), a@.len() as int, b@.len() as int);
            assert(seq![edit].drop_last() =~= Seq::<DiffEdit>::empty());
            assert(seq![edit].last() == edit);
            assert(walk_back(seq![edit], i as int, j as int) == Some((i - step_di(edit), j - step_dj(edit)))) by {
                reveal_with_fuel(walk_back, 2);
            }
            if T::obeys_eq_spec() {
                assert(edit == back_step(ha, hb, i as int, j as int));
                let e = edit;
                assert(back_edits(ha, hb, i as int, j as int) == back_edits(ha, hb, i - step_di(e), j - step_dj(e)).push(e));
                assert(back_edits(ha, hb, i - step_di(e), j - step_dj(e)).push(e) + old_edits.reverse()
                    =~= back_edits(ha, hb, i - step_di(e), j - step_dj(e)) + edits@.reverse());
            }
        }
        match edit {
            DiffEdit::Delete => {
                i = i - 1;
            },
            DiffEdit::Insert { .. } => {
                j = j - 1;
            },
            _ => {
                i = i - 1;
                j = j - 1;
            },
        }
    }
    let mut result: Vec<DiffEdit> = Vec::new();
    let mut k = edits.len();
    while k > 0
        invariant
            k <= edits@.len(),
            result@.len() == edits@.len() - k,
            forall|m: int| 0 <= m < result@.len() ==> result@[m] == edits@[edits@.len() - 1 - m],
        decreases k,
    {
        k = k - 1;
        result.push(edits[k]);
    }
    proof {
        assert(result@ =~= edits@.reverse());
        assert(back_edits(ha, hb, i as int, j as int) =~= Seq::<DiffEdit>::empty());
        assert(Seq::<DiffEdit>::empty() + edits@.reverse() =~= edits@.reverse());
    }
    result
}

/* Applying a script. */

/// One edit applied to the text `r` at the index `k`: what the text becomes and where the
/// index moves, or `None` where the edit would panic.
pub open spec fn apply_step(r: Seq<u8>, k: int, b: Seq<u8>, e: DiffEdit) -> Option<(Seq<u8>, int)> {
    match e {
        DiffEdit::Delete => if 0 <= k < r.len() {
            Some((r.remove(k), k))
        } else {
            None
        },
        DiffEdit::Insert { b_index } => if b_index < b.len() && 0 <= k <= r.len() {
            Some((r.insert(k, b[b_index as int]), k + 1))
        } else {
            None
        },
        DiffEdit::Match => Some((r, k + 1)),
        DiffEdit::Substite { b_index } => if b_index < b.len() && 0 <= k < r.len() {
            Some((r.update(k, b[b_index as int]), k + 1))
        } else {
            None
        },
    }
}

/// The edits applied in order to `a`, starting at index 0.
pub open spec fn apply_edits(a: Seq<u8>, b: Seq<u8>, edits: Seq<DiffEdit>) -> Option<(Seq<u8>, int)>
    decreases edits.len(),
{
    if edits.len() == 0 {
        Some((a, 0))
    } else {
        match apply_edits(a, b, edits.drop_last()) {
            Some((r, k)) => apply_step(r, k, b, edits.last()),
            None => None,
        }
    }
}

/// The index at which an application ended.
pub open spec fn applied_index(o: Option<(Seq<u8>, int)>) -> int {
    match o {
        Some((_, k)) => k,
        None => 0,
    }
}

/// Makes a string from ASCII bytes.
/// Calls `String::from_utf8`, which takes valid UTF-8 as it is; claimed: the string's
/// UTF-8 bytes are `v`.
#[verifier::external_body]
pub(crate) fn ascii_string(v: Vec<u8>) -> (r: String)
    requires
        forall|i: int| 0 <= i < v@.len() ==> v@[i] < 0x80,
    ensures
        string_bytes(&r) == v@,
{
    String::from_utf8(v).unwrap()
}

/// Applies an edit script from `a` to `b` to the text `a`, for ASCII texts.
pub fn build_from_edits(a: &str, b: &str, edits: &[DiffEdit]) -> (r: String)
    requires
        a.is_ascii(),
        b.is_ascii(),
        apply_edits(bytes(a), bytes(b), edits@) is Some,
    ensures
        apply_edits(bytes(a), bytes(b), edits@) == Some((string_bytes(&r), applied_index(apply_edits(bytes(a), bytes(b), edits@)))),
{
    proof {
        vstd::string::is_ascii_spec_bytes(a);
        vstd::string::is_ascii_spec_bytes(b);
    }
    let mut result = a.as_bytes_vec();
    let bb = b.as_bytes();
    let mut a_index: usize = 0;
    let mut n: usize = 0;
    proof {
        assert(edits@.take(0) =~= Seq::<DiffEdit>::empty());
    }
    while n < edits.len()
        invariant
            n <= edits@.len(),
            bb@ == bytes(b),
            forall|i: int| 0 <= i < bb@.len() ==> bb@[i] < 0x80,
            forall|i: int| 0 <= i < result@.len() ==> result@[i] < 0x80,
            a_index <= n,
            apply_edits(bytes(a), bytes(b), edits@) is Some,
            apply_edits(bytes(a), bytes(b), edits@.take(n as int)) == Some((result@, a_index as int)),
        decreases edits@.len() - n,
    {
        proof {
            lemma_apply_prefix_some(bytes(a), bytes(b), edits@, n as int + 1);
            assert(edits@.take(n + 1).drop_last() =~= edits@.take(n as int));
            assert(edits@.take(n + 1).last() == edits@[n as int]);
        }
        let ghost before = result@;
        match edits[n] {
            DiffEdit::Delete => {
                result.remove(a_index);
                proof {
                    assert(result@ =~= before.remove(a_index as int));
                }
            },
            DiffEdit::Insert { b_index } => {
                result.insert(a_index, bb[b_index]);
                proof {
                    assert(result@ =~= before.insert(a_index as int, bb@[b_index as int]));
                }
                a_index = a_index + 1;
            },
            DiffEdit::Match => {
                a_index = a_index + 1;
            },
            DiffEdit::Substite { b_index } => {
                result.set(a_index, bb[b_index]);
                a_index = a_index + 1;
            },
        }
        n = n + 1;
    }
    proof {
        assert(edits@.take(n as int) =~= edits@);
    }
    ascii_string(result)
}

/// A prefix of a script that applies without panicking applies too.
pub proof fn lemma_apply_prefix_some(a: Seq<u8>, b: Seq<u8>, edits: Seq<DiffEdit>, n: int)
    requires
        apply_edits(a, b, edits) is Some,
        0 <= n <= edits.len(),
    ensures
        apply_edits(a, b, edits.take(n)) is Some,
    decreases edits.len() - n,
{
    if n < edits.len() {
        lemma_apply_prefix_some(a, b, edits, n + 1);
        assert(edits.take(n + 1).drop_last() =~= edits.take(n));
    } else {
        assert(edits.take(n) =~= edits);
    }
}

/// A walk-back step that keeps both items is only taken where they are equal.
pub proof fn lemma_match_means_equal(a: Seq<u8>, b: Seq<u8>, i: int, j: int)
    requires
        0 < i <= a.len(),
        0 < j <= b.len(),
        back_step(a, b, i, j) is Match,
    ensures
        a[i - 1] == b[j - 1],
{
    if !same(a[i - 1], b[j - 1]) {
        let del = distance(a, b, i - 1, j);
        let ins = distance(a, b, i, j - 1);
        let sub = distance(a, b, i - 1, j - 1);
        assert(distance(a, b, i, j) == (if (if del <= ins { del } else { ins }) <= sub {
            if del <= ins { del } else { ins }
        } else {
            sub
        }) + 1);
    }
}

/// Along the walk back from `(i, j)` to `(0, 0)`, the edits turn `a` into the first `j`
/// items of `b` followed by `a` from `i` on, leaving the index at `j`.
pub proof fn lemma_back_edits_apply(a: Seq<u8>, b: Seq<u8>, i: int, j: int)
    requires
        0 <= i <= a.len(),
        0 <= j <= b.len(),
        b.len() <= usize::MAX,
        back_end(a, b, i, j) == (0int, 0int),
    ensures
        apply_edits(a, b, back_edits(a, b, i, j)) == Some((b.subrange(0, j) + a.subrange(i, a.len() as int), j)),
    decreases i + j,
{
    if i > 0 && j > 0 {
        let e = back_step(a, b, i, j);
        let i2 = i - step_di(e);
        let j2 = j - step_dj(e);
        lemma_back_edits_apply(a, b, i2, j2);
        let es = back_edits(a, b, i, j);
        assert(es.drop_last() =~= back_edits(a, b, i2, j2));
        assert(es.last() == e);
        let r = b.subrange(0, j2) + a.subrange(i2, a.len() as int);
        assert(es.len() > 0);
        assert(apply_edits(a, b, es) == apply_step(r, j2, b, e));
        match e {
            DiffEdit::Delete => {
                assert(j < r.len());
                assert(r.remove(j) =~= b.subrange(0, j) + a.subrange(i, a.len() as int));
            },
            DiffEdit::Insert { b_index } => {
                assert(r.insert(j - 1, b[j - 1]) =~= b.subrange(0, j) + a.subrange(i, a.len() as int));
            },
            DiffEdit::Substite { b_index } => {
                assert(r.update(j - 1, b[j - 1]) =~= b.subrange(0, j) + a.subrange(i, a.len() as int));
            },
            DiffEdit::Match => {
                lemma_match_means_equal(a, b, i, j);
                assert(r =~= b.subrange(0, j) + a.subrange(i, a.len() as int));
            },
        }
    } else {
        assert(b.subrange(0, j) + a.subrange(i, a.len() as int) =~= a);
    }
}

/// Applying the script `myers_diff` computes turns `a` into `b`, whenever its walk back
/// through the table reaches the start of both sequences.
pub proof fn law_diff_rebuilds_target(a: Seq<u8>, b: Seq<u8>)
    requires
        b.len() <= usize::MAX,
        back_end(a, b, a.len() as int, b.len() as int) == (0int, 0int),
    ensures
        apply_edits(a, b, diff_spec(a, b)) == Some((b, b.len() as int)),
{
    lemma_back_edits_apply(a, b, a.len() as int, b.len() as int);
    assert(b.subrange(0, b.len() as int) + a.subrange(a.len() as int, a.len() as int) =~= b);
}

/// How many steps of a script change something: all but the matches.
pub open spec fn script_cost(edits: Seq<DiffEdit>) -> nat
    decreases edits.len(),
{
    if edits.len() == 0 {
        0
    } else {
        script_cost(edits.drop_last()) + if edits.last() is Match { 0nat } else { 1nat }
    }
}

/// Distances of neighboring prefixes differ by at most one.
proof fn lemma_distance_steps<T: PartialEq>(a: Seq<T>, b: Seq<T>, i: int, j: int)
    requires
        0 <= i,
        0 <= j,
    ensures
        i > 0 ==> distance(a, b, i - 1, j) <= distance(a, b, i, j) + 1 && distance(a, b, i, j) <= distance(a, b, i - 1, j) + 1,
        j > 0 ==> distance(a, b, i, j - 1) <= distance(a, b, i, j) + 1 && distance(a, b, i, j) <= distance(a, b, i, j - 1) + 1,
    decreases i + j,
{
    if i > 0 && j > 0 {
        lemma_distance_steps(a, b, i - 1, j);
        lemma_distance_steps(a, b, i, j - 1);
    }
}

/// Along the walk back from `(i, j)`, the steps that change something, together with the
/// items left on both sides where the walk stops, number the edit distance.
proof fn lemma_back_cost<T: PartialEq>(a: Seq<T>, b: Seq<T>, i: int, j: int)
    requires
        0 <= i,
        0 <= j,
    ensures
        script_cost(back_edits(a, b, i, j)) + back_end(a, b, i, j).0 + back_end(a, b, i, j).1 == distance(a, b, i, j),
        back_end(a, b, i, j).0 == 0 || back_end(a, b, i, j).1 == 0,
    decreases i + j,
{
    if i > 0 && j > 0 {
        lemma_distance_steps(a, b, i, j);
        lemma_distance_steps(a, b, i - 1, j);
        lemma_distance_steps(a, b, i, j - 1);
        let e = back_step(a, b, i, j);
        let i2 = i - step_di(e);
        let j2 = j - step_dj(e);
        lemma_back_cost(a, b, i2, j2);
        let es = back_edits(a, b, i, j);
        assert(es.drop_last() =~= back_edits(a, b, i2, j2));
        assert(es.last() == e);
    }
}

/// The script `myers_diff` computes, with the items left on both sides where its walk stops
/// (all on one side, none on the other), costs the edit distance of the two sequences: every
/// step but a match counts one, every item left counts one.
pub proof fn law_diff_costs_the_distance<T: PartialEq>(a: Seq<T>, b: Seq<T>)
    ensures
        ({
            let end = back_end(a, b, a.len() as int, b.len() as int);
            &&& script_cost(diff_spec(a, b)) + end.0 + end.1 == distance(a, b, a.len() as int, b.len() as int)
            &&& end.0 == 0 || end.1 == 0
        }),
{
    lemma_back_cost(a, b, a.len() as int, b.len() as int);
}

} // verus!
