//! The mathematical model of a set of breaks, and the facts about it that the
//! operations on leaves and on whole sets rely on.
use vstd::prelude::*;

verus! {

/// What a leaf, or a whole set of breaks, holds: a length in base units and
/// the breaks as (offset, width) pairs, offsets counted from the start.
pub struct BreaksModel {
    pub len: int,
    pub breaks: Seq<(int, int)>,
}

/// Every offset of `s` moved by `d`.
pub open spec fn shift(s: Seq<(int, int)>, d: int) -> Seq<(int, int)> {
    s.map_values(|p: (int, int)| (p.0 + d, p.1))
}

/// The breaks of `s` whose offset lies in `(lo, hi]`, in order, with `base`
/// subtracted from each offset.
pub open spec fn window(s: Seq<(int, int)>, lo: int, hi: int, base: int) -> Seq<(int, int)>
    decreases s.len(),
{
    if s.len() == 0 {
        Seq::empty()
    } else {
        let w = window(s.drop_last(), lo, hi, base);
        let p = s.last();
        if lo < p.0 && p.0 <= hi {
            w.push((p.0 - base, p.1))
        } else {
            w
        }
    }
}

/// Offsets never decrease along `s`.
pub open spec fn is_sorted(s: Seq<(int, int)>) -> bool {
    forall|i: int, j: int| 0 <= i <= j < s.len() ==> s[i].0 <= s[j].0
}

/// A model that a leaf can hold: offsets sorted and within the length, and
/// every number fits a `usize`.
pub open spec fn model_wf(m: BreaksModel) -> bool {
    &&& 0 <= m.len <= usize::MAX
    &&& m.breaks.len() <= usize::MAX
    &&& is_sorted(m.breaks)
    &&& forall|i: int|
        0 <= i < m.breaks.len() ==> 0 <= #[trigger] m.breaks[i].0 <= m.len && 0
            <= m.breaks[i].1 <= usize::MAX
}

/// `a` followed by the part `(start, end]` of `b`: what a leaf `a` becomes
/// when that part of `b` is appended to it, before any split.
pub open spec fn joined(a: BreaksModel, b: BreaksModel, start: int, end: int) -> BreaksModel {
    let stop = if end < b.len {
        end
    } else {
        b.len
    };
    BreaksModel {
        len: a.len + stop - start,
        breaks: a.breaks + window(b.breaks, start, end, start - a.len),
    }
}

/// The first `h` breaks of `m`, the leaf ending at the last of them.
pub open spec fn split_front(m: BreaksModel, h: int) -> BreaksModel {
    BreaksModel { len: m.breaks[h - 1].0, breaks: m.breaks.take(h) }
}

/// What remains of `m` after `split_front(m, h)`, counted from its end.
pub open spec fn split_back(m: BreaksModel, h: int) -> BreaksModel {
    BreaksModel { len: m.len - m.breaks[h - 1].0, breaks: shift(m.breaks.skip(h), -m.breaks[h - 1].0) }
}

/// Widest line of `s`, 0 when there is no break.
pub open spec fn max_width_of(s: Seq<(int, int)>) -> int
    decreases s.len(),
{
    if s.len() == 0 {
        0
    } else {
        let m = max_width_of(s.drop_last());
        if s.last().1 > m {
            s.last().1
        } else {
            m
        }
    }
}

/// The pairs of a vector, read as integers.
pub open spec fn int_pairs(v: Seq<(usize, usize)>) -> Seq<(int, int)> {
    v.map_values(|p: (usize, usize)| (p.0 as int, p.1 as int))
}

pub proof fn lemma_window_step(s: Seq<(int, int)>, i: int, lo: int, hi: int, base: int)
    requires
        0 <= i < s.len(),
    ensures
        window(s.take(i + 1), lo, hi, base) == (if lo < s[i].0 && s[i].0 <= hi {
            window(s.take(i), lo, hi, base).push((s[i].0 - base, s[i].1))
        } else {
            window(s.take(i), lo, hi, base)
        }),
{
    assert(s.take(i + 1).drop_last() =~= s.take(i));
}

/// `b` appended to `a`: lengths add, and the breaks of `b` follow those of `a`.
pub open spec fn concat(a: BreaksModel, b: BreaksModel) -> BreaksModel {
    BreaksModel { len: a.len + b.len, breaks: a.breaks + shift(b.breaks, a.len) }
}

/// The model with no length and no break.
pub open spec fn empty_model() -> BreaksModel {
    BreaksModel { len: 0, breaks: Seq::empty() }
}

/// The leaves `ls`, one after the other, as one model.
pub open spec fn flatten(ls: Seq<BreaksModel>) -> BreaksModel
    decreases ls.len(),
{
    if ls.len() == 0 {
        empty_model()
    } else {
        concat(flatten(ls.drop_last()), ls.last())
    }
}

/// The part `(start, end]` of `m`, counted from `start`.
pub open spec fn subseq(m: BreaksModel, start: int, end: int) -> BreaksModel {
    BreaksModel { len: end - start, breaks: window(m.breaks, start, end, start) }
}

/// `m` with its part `(start, end]` replaced by `new`.
pub open spec fn edited(m: BreaksModel, start: int, end: int, new: BreaksModel) -> BreaksModel {
    concat(concat(subseq(m, 0, start), new), subseq(m, end, m.len))
}

pub proof fn lemma_shift_add(a: Seq<(int, int)>, b: Seq<(int, int)>, d: int)
    ensures
        shift(a + b, d) == shift(a, d) + shift(b, d),
{
    assert(shift(a + b, d) =~= shift(a, d) + shift(b, d));
}

pub proof fn lemma_shift_shift(s: Seq<(int, int)>, d1: int, d2: int)
    ensures
        shift(shift(s, d1), d2) == shift(s, d1 + d2),
{
    assert(shift(shift(s, d1), d2) =~= shift(s, d1 + d2));
}

pub proof fn lemma_shift_zero(s: Seq<(int, int)>)
    ensures
        shift(s, 0) == s,
{
    assert(shift(s, 0) =~= s);
}

pub proof fn lemma_concat_empty(a: BreaksModel)
    ensures
        concat(a, empty_model()) == a,
        concat(empty_model(), a) == a,
{
    assert(a.breaks + shift(Seq::<(int, int)>::empty(), a.len) =~= a.breaks);
    lemma_shift_zero(a.breaks);
    assert(Seq::<(int, int)>::empty() + shift(a.breaks, 0) =~= a.breaks);
}

pub proof fn lemma_concat_assoc(a: BreaksModel, b: BreaksModel, c: BreaksModel)
    ensures
        concat(concat(a, b), c) == concat(a, concat(b, c)),
{
    lemma_shift_add(b.breaks, shift(c.breaks, b.len), a.len);
    lemma_shift_shift(c.breaks, b.len, a.len);
    assert(a.breaks + shift(b.breaks, a.len) + shift(c.breaks, a.len + b.len) =~= a.breaks + (shift(
        b.breaks,
        a.len,
    ) + shift(c.breaks, b.len + a.len)));
}

pub proof fn lemma_flatten_append(x: Seq<BreaksModel>, y: Seq<BreaksModel>)
    ensures
        flatten(x + y) == concat(flatten(x), flatten(y)),
    decreases y.len(),
{
    if y.len() == 0 {
        assert(x + y =~= x);
        lemma_concat_empty(flatten(x));
    } else {
        lemma_flatten_append(x, y.drop_last());
        assert((x + y).drop_last() =~= x + y.drop_last());
        assert((x + y).last() == y.last());
        lemma_concat_assoc(flatten(x), flatten(y.drop_last()), y.last());
    }
}

pub proof fn lemma_flatten_one(m: BreaksModel)
    ensures
        flatten(seq![m]) == m,
{
    assert(seq![m].drop_last() =~= Seq::<BreaksModel>::empty());
    assert(flatten(Seq::<BreaksModel>::empty()) == empty_model());
    lemma_concat_empty(m);
}

pub proof fn lemma_flatten_push(x: Seq<BreaksModel>, m: BreaksModel)
    ensures
        flatten(x.push(m)) == concat(flatten(x), m),
{
    assert(x.push(m).drop_last() =~= x);
}

/// All the leaves have a length of at least 0, so a prefix is never longer
/// nor holds more breaks than the whole.
pub proof fn lemma_flatten_nonneg(ls: Seq<BreaksModel>)
    requires
        forall|i: int| 0 <= i < ls.len() ==> #[trigger] ls[i].len >= 0,
    ensures
        flatten(ls).len >= 0,
    decreases ls.len(),
{
    if ls.len() > 0 {
        lemma_flatten_nonneg(ls.drop_last());
    }
}

pub proof fn lemma_flatten_prefix(ls: Seq<BreaksModel>, i: int)
    requires
        0 <= i <= ls.len(),
        forall|k: int| 0 <= k < ls.len() ==> #[trigger] ls[k].len >= 0,
    ensures
        flatten(ls.take(i)).len <= flatten(ls).len,
        flatten(ls.take(i)).breaks.len() <= flatten(ls).breaks.len(),
{
    assert(ls =~= ls.take(i) + ls.skip(i));
    lemma_flatten_append(ls.take(i), ls.skip(i));
    lemma_flatten_nonneg(ls.skip(i));
}

pub proof fn lemma_window_add(x: Seq<(int, int)>, y: Seq<(int, int)>, lo: int, hi: int, base: int)
    ensures
        window(x + y, lo, hi, base) == window(x, lo, hi, base) + window(y, lo, hi, base),
    decreases y.len(),
{
    if y.len() == 0 {
        assert(x + y =~= x);
        assert(window(x, lo, hi, base) + Seq::empty() =~= window(x, lo, hi, base));
    } else {
        lemma_window_add(x, y.drop_last(), lo, hi, base);
        assert((x + y).drop_last() =~= x + y.drop_last());
        assert((x + y).last() == y.last());
        let p = y.last();
        if lo < p.0 && p.0 <= hi {
            assert(window(x, lo, hi, base) + window(y.drop_last(), lo, hi, base).push((p.0 - base, p.1))
                =~= (window(x, lo, hi, base) + window(y.drop_last(), lo, hi, base)).push(
                (p.0 - base, p.1),
            ));
        }
    }
}

pub proof fn lemma_window_shift(x: Seq<(int, int)>, d: int, lo: int, hi: int, base: int)
    ensures
        window(shift(x, d), lo, hi, base) == window(x, lo - d, hi - d, base - d),
    decreases x.len(),
{
    if x.len() > 0 {
        lemma_window_shift(x.drop_last(), d, lo, hi, base);
        assert(shift(x, d).drop_last() =~= shift(x.drop_last(), d));
    }
}

pub proof fn lemma_shift_window(x: Seq<(int, int)>, lo: int, hi: int, base: int, d: int)
    ensures
        shift(window(x, lo, hi, base), d) == window(x, lo, hi, base - d),
    decreases x.len(),
{
    if x.len() > 0 {
        lemma_shift_window(x.drop_last(), lo, hi, base, d);
        let w = window(x.drop_last(), lo, hi, base);
        let p = x.last();
        if lo < p.0 && p.0 <= hi {
            assert(shift(w.push((p.0 - base, p.1)), d) =~= shift(w, d).push((p.0 - base + d, p.1)));
        }
    } else {
        assert(shift(Seq::<(int, int)>::empty(), d) =~= Seq::empty());
    }
}

/// Two windows agree when the same breaks of `x` fall in each.
pub proof fn lemma_window_same(x: Seq<(int, int)>, lo1: int, hi1: int, lo2: int, hi2: int, base: int)
    requires
        forall|i: int|
            0 <= i < x.len() ==> ((lo1 < #[trigger] x[i].0 && x[i].0 <= hi1) <==> (lo2 < x[i].0 && x[i].0
                <= hi2)),
    ensures
        window(x, lo1, hi1, base) == window(x, lo2, hi2, base),
    decreases x.len(),
{
    if x.len() > 0 {
        assert(x.last() == x[x.len() - 1]);
        lemma_window_same(x.drop_last(), lo1, hi1, lo2, hi2, base);
    }
}

/// A window that no break of `x` falls in is empty.
pub proof fn lemma_window_none(x: Seq<(int, int)>, lo: int, hi: int, base: int)
    requires
        forall|i: int| 0 <= i < x.len() ==> !(lo < #[trigger] x[i].0 && x[i].0 <= hi),
    ensures
        window(x, lo, hi, base) == Seq::<(int, int)>::empty(),
    decreases x.len(),
{
    if x.len() > 0 {
        assert(x.last() == x[x.len() - 1]);
        lemma_window_none(x.drop_last(), lo, hi, base);
    }
}

/// A window that every break of `x` falls in holds them all.
pub proof fn lemma_window_all(x: Seq<(int, int)>, lo: int, hi: int, base: int)
    requires
        forall|i: int| 0 <= i < x.len() ==> lo < #[trigger] x[i].0 && x[i].0 <= hi,
    ensures
        window(x, lo, hi, base) == shift(x, -base),
    decreases x.len(),
{
    if x.len() > 0 {
        assert(x.last() == x[x.len() - 1]);
        lemma_window_all(x.drop_last(), lo, hi, base);
        assert(shift(x, -base) =~= shift(x.drop_last(), -base).push((x.last().0 - base, x.last().1)));
    } else {
        assert(shift(x, -base) =~= Seq::empty());
    }
}

pub proof fn lemma_window_len(x: Seq<(int, int)>, lo: int, hi: int, base: int)
    ensures
        window(x, lo, hi, base).len() <= x.len(),
    decreases x.len(),
{
    if x.len() > 0 {
        lemma_window_len(x.drop_last(), lo, hi, base);
    }
}

/// Two windows that do not overlap hold together no more breaks than `x`.
pub proof fn lemma_windows_disjoint(
    x: Seq<(int, int)>,
    lo1: int,
    hi1: int,
    base1: int,
    lo2: int,
    hi2: int,
    base2: int,
)
    requires
        hi1 <= lo2,
    ensures
        window(x, lo1, hi1, base1).len() + window(x, lo2, hi2, base2).len() <= x.len(),
    decreases x.len(),
{
    if x.len() > 0 {
        lemma_windows_disjoint(x.drop_last(), lo1, hi1, base1, lo2, hi2, base2);
    }
}

pub proof fn lemma_max_width_concat(a: Seq<(int, int)>, b: Seq<(int, int)>, d: int)
    ensures
        max_width_of(a + shift(b, d)) == (if max_width_of(b) > max_width_of(a) {
            max_width_of(b)
        } else {
            max_width_of(a)
        }),
        max_width_of(a) >= 0,
    decreases b.len(),
{
    lemma_max_width_nonneg(a);
    lemma_max_width_nonneg(b);
    if b.len() == 0 {
        assert(a + shift(b, d) =~= a);
    } else {
        lemma_max_width_concat(a, b.drop_last(), d);
        assert((a + shift(b, d)).drop_last() =~= a + shift(b.drop_last(), d));
        assert((a + shift(b, d)).last().1 == b.last().1);
    }
}

pub proof fn lemma_max_width_nonneg(a: Seq<(int, int)>)
    ensures
        max_width_of(a) >= 0,
    decreases a.len(),
{
    if a.len() > 0 {
        lemma_max_width_nonneg(a.drop_last());
    }
}

/// The part of `f` that lies in `[a, b]`, counted from `a`, with the breaks
/// in `(a, b]`; while `f` is a prefix of a longer model, this is what of
/// `(a, b]` it already covers.
pub open spec fn clipped(f: BreaksModel, a: int, b: int) -> BreaksModel {
    let stop = if b < f.len {
        b
    } else {
        f.len
    };
    BreaksModel { len: if stop > a { stop - a } else { 0 }, breaks: window(f.breaks, a, b, a) }
}

pub proof fn lemma_split_concat(j: BreaksModel, h: int)
    requires
        0 < h <= j.breaks.len(),
    ensures
        concat(split_front(j, h), split_back(j, h)) == j,
{
    let u = j.breaks[h - 1].0;
    lemma_shift_shift(j.breaks.skip(h), -u, u);
    lemma_shift_zero(j.breaks.skip(h));
    assert(j.breaks.take(h) + j.breaks.skip(h) =~= j.breaks);
}

/// The breaks that a leaf at offset `o`, of length `len` and breaks `x`,
/// contributes to the part `(a, b]` of the whole: when the leaf starts inside
/// that part, its breaks at offset 0 (the first `z`) followed by those in
/// `(0, e]`; otherwise those in `(s, e]`. Here `s` and `e` are the bounds of
/// the part, clipped to the leaf.
pub proof fn lemma_leaf_piece(x: Seq<(int, int)>, len: int, z: int, a: int, b: int, o: int)
    requires
        is_sorted(x),
        forall|i: int| 0 <= i < x.len() ==> 0 <= #[trigger] x[i].0 <= len,
        a <= b,
        o <= b,
        a <= o + len,
        a < o ==> 0 <= z <= x.len() && (forall|k: int| 0 <= k < z ==> #[trigger] x[k].0 == 0) && (z
            < x.len() ==> x[z].0 != 0),
    ensures
        ({
            let s = if a > o {
                a - o
            } else {
                0
            };
            let e = if b < o + len {
                b - o
            } else {
                len
            };
            let zeros = if a < o {
                x.take(z)
            } else {
                Seq::empty()
            };
            zeros + window(x, s, e, s) == window(x, a - o, b - o, s)
        }),
{
    let s = if a > o {
        a - o
    } else {
        0
    };
    let e = if b < o + len {
        b - o
    } else {
        len
    };
    if a >= o {
        lemma_window_same(x, s, e, a - o, b - o, s);
        assert(Seq::<(int, int)>::empty() + window(x, s, e, s) =~= window(x, s, e, s));
    } else {
        let zs = x.take(z);
        let rest = x.skip(z);
        assert(x =~= zs + rest);
        lemma_window_add(zs, rest, 0, e, 0);
        lemma_window_add(zs, rest, a - o, b - o, 0);
        lemma_window_none(zs, 0, e, 0);
        lemma_window_all(zs, a - o, b - o, 0);
        lemma_shift_zero(zs);
        assert forall|i: int| 0 <= i < rest.len() implies #[trigger] rest[i].0 > 0 by {
            assert(rest[i] == x[z + i]);
            assert(x[z].0 <= x[z + i].0);
        }
        lemma_window_same(rest, 0, e, a - o, b - o, 0);
        assert(Seq::<(int, int)>::empty() + window(rest, 0, e, 0) =~= window(rest, 0, e, 0));
    }
}

/// Leaves that are well formed, one after the other, make a well-formed
/// model when the total length fits a `usize`.
pub proof fn lemma_flatten_wf(ls: Seq<BreaksModel>)
    requires
        forall|i: int| 0 <= i < ls.len() ==> model_wf(#[trigger] ls[i]),
        flatten(ls).len <= usize::MAX,
        flatten(ls).breaks.len() <= usize::MAX,
    ensures
        model_wf(flatten(ls)),
    decreases ls.len(),
{
    if ls.len() > 0 {
        let init = ls.drop_last();
        let l = ls.last();
        assert(model_wf(ls[ls.len() - 1]));
        assert forall|i: int| 0 <= i < init.len() implies #[trigger] init[i].len >= 0 by {
            assert(model_wf(ls[i]));
        }
        lemma_flatten_nonneg(init);
        assert forall|i: int| 0 <= i < init.len() implies model_wf(#[trigger] init[i]) by {
            assert(init[i] == ls[i]);
        }
        lemma_flatten_wf(init);
        let f = flatten(init);
        let b = f.breaks + shift(l.breaks, f.len);
        assert forall|i: int, j: int| 0 <= i <= j < b.len() implies b[i].0 <= b[j].0 by {
            if j < f.breaks.len() {
            } else if i >= f.breaks.len() {
                assert(l.breaks[i - f.breaks.len()].0 <= l.breaks[j - f.breaks.len()].0);
            } else {
                assert(f.breaks[i].0 <= f.len);
                assert(l.breaks[j - f.breaks.len()].0 >= 0);
            }
        }
        assert forall|i: int| 0 <= i < b.len() implies 0 <= #[trigger] b[i].0 <= f.len + l.len && 0
            <= b[i].1 <= usize::MAX by {
            if i >= f.breaks.len() {
                assert(l.breaks[i - f.breaks.len()].0 <= l.len);
            }
        }
    }
}

/// On sorted breaks, the windows over two adjacent ranges, one after the
/// other, are the window over their union.
pub proof fn lemma_window_adjacent(x: Seq<(int, int)>, a: int, s: int, e: int)
    requires
        is_sorted(x),
        a <= s <= e,
    ensures
        window(x, a, s, 0) + window(x, s, e, 0) == window(x, a, e, 0),
    decreases x.len(),
{
    if x.len() == 0 {
        assert(Seq::<(int, int)>::empty() + Seq::<(int, int)>::empty() =~= Seq::<(int, int)>::empty());
    } else {
        let init = x.drop_last();
        let p = x.last();
        assert(is_sorted(init));
        lemma_window_adjacent(init, a, s, e);
        let w1 = window(init, a, s, 0);
        let w2 = window(init, s, e, 0);
        if s < p.0 && p.0 <= e {
            assert(w1 + w2.push((p.0, p.1)) =~= (w1 + w2).push((p.0, p.1)));
        } else if a < p.0 && p.0 <= s {
            assert forall|i: int| 0 <= i < init.len() implies !(s < #[trigger] init[i].0 && init[i].0
                <= e) by {
                assert(x[i].0 <= x[x.len() - 1].0);
            }
            lemma_window_none(init, s, e, 0);
            assert(w1.push((p.0, p.1)) + Seq::<(int, int)>::empty() =~= w1.push((p.0, p.1)));
            assert(w1 + Seq::<(int, int)>::empty() =~= w1);
        }
    }
}

/// Replacing a part of a set of breaks with that same part leaves it as it
/// was, when no break lies at offset 0.
pub proof fn law_edit_with_own_part(m: BreaksModel, start: int, end: int)
    requires
        model_wf(m),
        0 <= start <= end <= m.len,
        forall|i: int| 0 <= i < m.breaks.len() ==> #[trigger] m.breaks[i].0 > 0,
    ensures
        edited(m, start, end, subseq(m, start, end)) == m,
{
    let x = m.breaks;
    lemma_shift_window(x, start, end, start, start);
    lemma_shift_window(x, end, m.len, end, end);
    lemma_window_adjacent(x, 0, start, end);
    lemma_window_adjacent(x, 0, end, m.len);
    lemma_window_all(x, 0, m.len, 0);
    lemma_shift_zero(x);
    let p = subseq(m, 0, start);
    let q = subseq(m, start, end);
    let r = subseq(m, end, m.len);
    assert(concat(p, q).breaks =~= window(x, 0, end, 0));
    assert(concat(concat(p, q), r).breaks =~= window(x, 0, m.len, 0));
}

/// What a builder holds after one more call: `len` more base units, then a
/// break of width `w` at the new end when `width` is `Some(w)`.
pub open spec fn after_step(m: BreaksModel, len: int, width: Option<int>) -> BreaksModel {
    match width {
        Some(w) => BreaksModel { len: m.len + len, breaks: m.breaks.push((m.len + len, w)) },
        None => BreaksModel { len: m.len + len, breaks: m.breaks },
    }
}

/// What a new builder holds after the calls `steps`: each a length, with a
/// width for a break and none for a run without one.
pub open spec fn apply_steps(steps: Seq<(int, Option<int>)>) -> BreaksModel
    decreases steps.len(),
{
    if steps.len() == 0 {
        empty_model()
    } else {
        after_step(apply_steps(steps.drop_last()), steps.last().0, steps.last().1)
    }
}

/// The lengths of `steps` added up.
pub open spec fn total_len(steps: Seq<(int, Option<int>)>) -> int
    decreases steps.len(),
{
    if steps.len() == 0 {
        0
    } else {
        total_len(steps.drop_last()) + steps.last().0
    }
}

/// How many of `steps` add a break.
pub open spec fn break_count(steps: Seq<(int, Option<int>)>) -> int
    decreases steps.len(),
{
    if steps.len() == 0 {
        0
    } else {
        break_count(steps.drop_last()) + if steps.last().1 is Some {
            1int
        } else {
            0int
        }
    }
}

/// The widest break that `steps` add, 0 when they add none.
pub open spec fn widest_step(steps: Seq<(int, Option<int>)>) -> int
    decreases steps.len(),
{
    if steps.len() == 0 {
        0
    } else {
        let m = widest_step(steps.drop_last());
        match steps.last().1 {
            Some(w) => if w > m {
                w
            } else {
                m
            },
            None => m,
        }
    }
}

proof fn lemma_break_count_prefix(steps: Seq<(int, Option<int>)>, i: int)
    requires
        0 <= i <= steps.len(),
    ensures
        0 <= break_count(steps.take(i)) <= break_count(steps),
    decreases steps.len(),
{
    if steps.len() > 0 {
        if i == steps.len() {
            assert(steps.take(i) =~= steps);
            lemma_break_count_prefix(steps.drop_last(), i - 1);
            assert(steps.drop_last().take(i - 1) =~= steps.drop_last());
        } else {
            lemma_break_count_prefix(steps.drop_last(), i);
            assert(steps.drop_last().take(i) =~= steps.take(i));
        }
    }
}

/// Whatever calls a builder gets, it holds their lengths added up, one break
/// per call that adds one, each at the length reached by that call and with
/// that call's width, and its widest line is the widest of those breaks.
pub proof fn law_builder_steps(steps: Seq<(int, Option<int>)>)
    ensures
        apply_steps(steps).len == total_len(steps),
        apply_steps(steps).breaks.len() == break_count(steps),
        forall|i: int|
            0 <= i < steps.len() && (#[trigger] steps[i]).1 is Some ==> apply_steps(steps).breaks[break_count(
                steps.take(i),
            )] == (total_len(steps.take(i + 1)), steps[i].1.unwrap()),
        max_width_of(apply_steps(steps).breaks) == widest_step(steps),
    decreases steps.len(),
{
    if steps.len() > 0 {
        let init = steps.drop_last();
        let n = steps.len() - 1;
        law_builder_steps(init);
        assert(steps.take(n) =~= init);
        assert(steps.take(n + 1) =~= steps);
        assert(steps.last() == steps[n]);
        let old = apply_steps(init);
        let p = (old.len + steps[n].0, steps[n].1.unwrap());
        assert(old.breaks.push(p).drop_last() =~= old.breaks);
        assert forall|i: int| 0 <= i < steps.len() && (#[trigger] steps[i]).1 is Some implies apply_steps(
            steps,
        ).breaks[break_count(steps.take(i))] == (total_len(steps.take(i + 1)), steps[i].1.unwrap()) by {
            if i < n {
                assert(init[i] == steps[i]);
                assert(init.take(i) =~= steps.take(i));
                assert(init.take(i + 1) =~= steps.take(i + 1));
                assert(init.take(i + 1).drop_last() =~= init.take(i));
                assert(init.take(i + 1).last() == init[i]);
                lemma_break_count_prefix(init, i + 1);
                lemma_break_count_prefix(init, i);
                assert(break_count(init.take(i + 1)) == break_count(init.take(i)) + 1);
                let k = break_count(steps.take(i));
                assert(k == break_count(init.take(i)));
                assert(total_len(init.take(i + 1)) == total_len(steps.take(i + 1)));
                if steps[n].1 is Some {
                    assert(apply_steps(steps).breaks == old.breaks.push(p));
                    assert(old.breaks.push(p)[k] == old.breaks[k]);
                } else {
                    assert(apply_steps(steps).breaks == old.breaks);
                }
            } else {
                assert(i == n);
                assert(break_count(steps.take(i)) == old.breaks.len());
                assert(apply_steps(steps).breaks == old.breaks.push(p));
                assert(total_len(steps.take(i + 1)) == old.len + steps[n].0);
            }
        }
    }
}

/// Two leaves one after the other hold the breaks of both, and their widest
/// line is the wider of the two widest; as the widest line is never below 0,
/// the empty summary added to another leaves it as it is.
pub proof fn law_summary_concat(a: BreaksModel, b: BreaksModel)
    ensures
        concat(a, b).breaks.len() == a.breaks.len() + b.breaks.len(),
        max_width_of(concat(a, b).breaks) == (if max_width_of(b.breaks) > max_width_of(a.breaks) {
            max_width_of(b.breaks)
        } else {
            max_width_of(a.breaks)
        }),
        max_width_of(a.breaks) >= 0,
        max_width_of(b.breaks) >= 0,
{
    lemma_max_width_concat(a.breaks, b.breaks, a.len);
    lemma_max_width_nonneg(b.breaks);
}

} // verus!
