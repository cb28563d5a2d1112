//! A set of breaks (offsets with a width each), typically the result of
//! line breaking, kept as a sequence of bounded leaves.
use vstd::prelude::*;
use crate::breaks_model::{
    BreaksModel, concat, edited, empty_model, flatten, int_pairs, is_sorted, joined, lemma_window_step,
    max_width_of, model_wf, shift, split_back, split_front, subseq, window, clipped,
    lemma_flatten_push, lemma_flatten_prefix, lemma_flatten_one, lemma_flatten_append,
    lemma_max_width_concat, lemma_window_add, lemma_window_shift, lemma_shift_window,
    lemma_window_none, lemma_windows_disjoint, lemma_split_concat, lemma_leaf_piece,
    lemma_concat_assoc, lemma_concat_empty, after_step,
};

verus! {

/// Most breaks a leaf holds before it is split.
pub const MAX_LEAF: usize = 64;

/// Fewest breaks for a leaf to count as a well-filled child.
pub const MIN_LEAF: usize = 32;

/// Offset of a break, in base units, from the start of its leaf.
pub type Offset = usize;

/// Width of the line that a break ends.
pub type Width = usize;

/// `n` is where a search for `key` among the sorted offsets of `s` ends: just
/// past a break at `key` when there is one (any of them, when several are),
/// otherwise the number of breaks before `key`.
pub open spec fn search_end(s: Seq<(int, int)>, key: int, n: int) -> bool {
    &&& 0 <= n <= s.len()
    &&& (0 < n && s[n - 1].0 == key) || ((forall|j: int| 0 <= j < n ==> #[trigger] s[j].0 < key)
        && (forall|j: int| n <= j < s.len() ==> #[trigger] s[j].0 > key))
}

/// The offset of the `n`-th break of `m`; 0 for none, and one past the end
/// of `m` when it has fewer breaks.
pub open spec fn to_base(m: BreaksModel, n: int) -> int {
    if n > m.breaks.len() {
        m.len + 1
    } else if n == 0 {
        0
    } else {
        m.breaks[n - 1].0
    }
}

/// Counting the breaks up to the offset of a break, then taking the offset
/// of that many breaks, gives back the offset.
pub proof fn law_break_offset_round_trip(m: BreaksModel, b: int, n: int)
    requires
        model_wf(m),
        exists|i: int| 0 <= i < m.breaks.len() && #[trigger] m.breaks[i].0 == b,
        search_end(m.breaks, b, n),
    ensures
        to_base(m, n) == b,
{
    let i = choose|i: int| 0 <= i < m.breaks.len() && #[trigger] m.breaks[i].0 == b;
    if !(0 < n && m.breaks[n - 1].0 == b) {
        if i < n {
            assert(m.breaks[i].0 < b);
        } else {
            assert(m.breaks[i].0 > b);
        }
    }
}

/// When no two breaks share an offset, taking the offset of the `n`-th
/// break, then counting the breaks up to it, gives back `n`.
pub proof fn law_break_count_round_trip(m: BreaksModel, n: int, k: int)
    requires
        model_wf(m),
        forall|i: int, j: int| 0 <= i < j < m.breaks.len() ==> m.breaks[i].0 < m.breaks[j].0,
        1 <= n <= m.breaks.len(),
        search_end(m.breaks, to_base(m, n), k),
    ensures
        k == n,
{
    let b = to_base(m, n);
    if 0 < k && m.breaks[k - 1].0 == b {
        if k - 1 < n - 1 {
            assert(m.breaks[k - 1].0 < m.breaks[n - 1].0);
        } else if k - 1 > n - 1 {
            assert(m.breaks[n - 1].0 < m.breaks[k - 1].0);
        }
    } else {
        if n - 1 < k {
            assert(m.breaks[n - 1].0 < b);
        } else {
            assert(m.breaks[n - 1].0 > b);
        }
    }
}

/// Searches the offsets of `data`, which are sorted, for `key` by halving:
/// `Ok(i)` when a break lies at `key` (the first such), with `i` its index;
/// otherwise `Err(i)`, with `i` the number of breaks before `key`, where a
/// break at `key` would go.
fn search_by_offset(data: &Vec<(Offset, Width)>, key: usize) -> (r: Result<usize, usize>)
    ensures
        is_sorted(int_pairs(data@)) ==> match r {
            Ok(i) => i < data@.len() && data@[i as int].0 == key,
            Err(i) => i <= data@.len() && (forall|j: int| 0 <= j < i ==> #[trigger] data@[j].0 < key)
                && (forall|j: int| i <= j < data@.len() ==> #[trigger] data@[j].0 > key),
        },
        (exists|j: int| 0 <= j < data@.len() && #[trigger] data@[j].0 == key) && is_sorted(int_pairs(data@))
            ==> r is Ok,
{
    let ghost sorted = is_sorted(int_pairs(data@));
    let mut lo: usize = 0;
    let mut hi: usize = data.len();
    while lo < hi
        invariant
            lo <= hi <= data@.len(),
            sorted == is_sorted(int_pairs(data@)),
            sorted ==> forall|j: int| 0 <= j < lo ==> #[trigger] data@[j].0 < key,
            sorted ==> forall|j: int| hi <= j < data@.len() ==> #[trigger] data@[j].0 >= key,
        decreases hi - lo,
    {
        let mid = lo + (hi - lo) / 2;
        if data[mid].0 < key {
            proof {
                if sorted {
                    assert forall|j: int| 0 <= j < mid + 1 implies #[trigger] data@[j].0 < key by {
                        assert(int_pairs(data@)[j].0 <= int_pairs(data@)[mid as int].0);
                    }
                }
            }
            lo = mid + 1;
        } else {
            proof {
                if sorted {
                    assert forall|j: int| mid <= j < data@.len() implies #[trigger] data@[j].0 >= key by {
                        assert(int_pairs(data@)[mid as int].0 <= int_pairs(data@)[j].0);
                    }
                }
            }
            hi = mid;
        }
    }
    if lo < data.len() && data[lo].0 == key {
        Ok(lo)
    } else {
        proof {
            if sorted {
                assert forall|j: int| lo <= j < data@.len() implies #[trigger] data@[j].0 > key by {
                    assert(int_pairs(data@)[lo as int].0 <= int_pairs(data@)[j].0);
                }
            }
        }
        Err(lo)
    }
}

/// A leaf that holds more than `MAX_LEAF` breaks splits at its middle break
/// into two well-filled halves, which hold its breaks and its length between
/// them.
pub proof fn law_split_halves(j: BreaksModel)
    requires
        model_wf(j),
        j.breaks.len() > MAX_LEAF,
    ensures
        ({
            let h = (j.breaks.len() / 2) as int;
            let front = split_front(j, h);
            let back = split_back(j, h);
            &&& front.breaks.len() >= MIN_LEAF
            &&& back.breaks.len() >= MIN_LEAF
            &&& front.breaks.len() + back.breaks.len() == j.breaks.len()
            &&& front.len + back.len == j.len
            &&& concat(front, back) == j
        }),
{
    let h = (j.breaks.len() / 2) as int;
    lemma_split_concat(j, h);
}

// ---------------------------------------------------------------------------
//  Leaves
// ---------------------------------------------------------------------------

/// A run of base units with the breaks that fall in it.
#[derive(Clone, Debug, PartialEq, Eq)]
pub struct BreaksLeaf {
    /// Length, in base units.
    len: usize,
    /// Breaks, as offsets from the start of the leaf, with their widths.
    data: Vec<(Offset, Width)>,
}

impl View for BreaksLeaf {
    type V = BreaksModel;

    closed spec fn view(&self) -> BreaksModel {
        BreaksModel { len: self.len as int, breaks: int_pairs(self.data@) }
    }
}

impl Default for BreaksLeaf {
    fn default() -> (r: BreaksLeaf)
        ensures
            r@ == (BreaksModel { len: 0, breaks: Seq::empty() }),
            r.wf(),
    {
        let r = BreaksLeaf { len: 0, data: Vec::new() };
        assert(r@.breaks =~= Seq::empty());
        r
    }
}

impl BreaksLeaf {
    /// The leaf keeps its breaks sorted and within its length.
    pub open spec fn wf(&self) -> bool {
        model_wf(self@)
    }

    /// The leaf of `len` base units with the breaks `data`, when `data` is
    /// sorted by offset and no offset lies past `len`.
    pub fn from_data(len: usize, data: Vec<(Offset, Width)>) -> (r: Option<BreaksLeaf>)
        ensures
            r is Some <==> model_wf(BreaksModel { len: len as int, breaks: int_pairs(data@) }),
            r matches Some(l) ==> l@ == (BreaksModel { len: len as int, breaks: int_pairs(data@) }) && l.wf(),
    {
        let ghost m = BreaksModel { len: len as int, breaks: int_pairs(data@) };
        let mut i: usize = 0;
        while i < data.len()
            invariant
                i <= data@.len(),
                m == (BreaksModel { len: len as int, breaks: int_pairs(data@) }),
                forall|k: int| 0 <= k < i ==> #[trigger] data@[k].0 <= len,
                forall|k: int, j: int| 0 <= k <= j < i ==> data@[k].0 <= data@[j].0,
            decreases data@.len() - i,
        {
            if data[i].0 > len || (i > 0 && data[i - 1].0 > data[i].0) {
                proof {
                    if data@[i as int].0 > len {
                        assert(m.breaks[i as int].0 > m.len);
                    } else {
                        assert(m.breaks[i - 1].0 > m.breaks[i as int].0);
                    }
                }
                return None;
            }
            i += 1;
        }
        proof {
            assert forall|k: int, j: int| 0 <= k <= j < m.breaks.len() implies m.breaks[k].0 <= m.breaks[j].0 by {
                assert(data@[k].0 <= data@[j].0);
            }
        }
        Some(BreaksLeaf { len, data })
    }

    /// Length of the leaf in base units.
    pub fn len(&self) -> (r: usize)
        ensures
            r == self@.len,
    {
        self.len
    }

    /// A leaf is a well-filled child when it holds at least `MIN_LEAF` breaks.
    pub fn is_ok_child(&self) -> (r: bool)
        ensures
            r == (self@.breaks.len() >= MIN_LEAF),
    {
        self.data.len() >= MIN_LEAF
    }

    /// The breaks, offsets and widths, as a new vector.
    pub fn get_data_cloned(&self) -> (r: Vec<(Offset, Width)>)
        ensures
            int_pairs(r@) == self@.breaks,
    {
        let mut r: Vec<(Offset, Width)> = Vec::new();
        let mut i: usize = 0;
        while i < self.data.len()
            invariant
                i <= self.data@.len(),
                r@ == self.data@.take(i as int),
            decreases self.data@.len() - i,
        {
            let p = self.data[i];
            r.push(p);
            i += 1;
            assert(r@ =~= self.data@.take(i as int));
        }
        assert(self.data@.take(self.data@.len() as int) =~= self.data@);
        assert(int_pairs(r@) =~= self@.breaks);
        r
    }

    /// Appends to this leaf the breaks of `other` that lie in
    /// `(start, end]`, moved to follow this leaf, and grows this leaf by the
    /// length of `other` between `start` and `end`. When the leaf then holds
    /// more than `MAX_LEAF` breaks it is split in two at its middle break, and
    /// the second half is returned.
    pub fn push_maybe_split(&mut self, other: &BreaksLeaf, start: usize, end: usize) -> (split:
        Option<BreaksLeaf>)
        requires
            old(self).wf(),
            other.wf(),
            start <= end,
            start <= other@.len,
            joined(old(self)@, other@, start as int, end as int).len <= usize::MAX,
        ensures
            final(self).wf(),
            ({
                let j = joined(old(self)@, other@, start as int, end as int);
                let h = (j.breaks.len() / 2) as int;
                &&& j.breaks.len() <= MAX_LEAF ==> split is None && final(self)@ == j
                &&& j.breaks.len() > MAX_LEAF ==> (split matches Some(n) && n.wf() && final(self)@
                    == split_front(j, h) && n@ == split_back(j, h))
            }),
    {
        let ghost old_self = self@;
        let ghost ob = other@.breaks;
        let ghost base = start - old_self.len;
        let ghost stop: int = if end < other.len {
            end as int
        } else {
            other.len as int
        };
        let ghost new_len = old_self.len + stop - start;
        let mut i: usize = 0;
        while i < other.data.len()
            invariant
                i <= other.data@.len(),
                other.wf(),
                ob == other@.breaks,
                self.len == old_self.len,
                base == start - old_self.len,
                stop == if end < other.len {
                    end as int
                } else {
                    other.len as int
                },
                new_len == old_self.len + stop - start,
                new_len <= usize::MAX,
                start <= end,
                start <= other.len,
                self@.breaks == old_self.breaks + window(ob.take(i as int), start as int, end as int, base),
                is_sorted(self@.breaks),
                forall|k: int|
                    0 <= k < self@.breaks.len() ==> 0 <= #[trigger] self@.breaks[k].0 <= new_len && 0
                        <= self@.breaks[k].1 <= usize::MAX,
                forall|k: int, j: int|
                    0 <= k < self@.breaks.len() && i <= j < ob.len() && start < ob[j].0 ==> #[trigger] self@.breaks[k].0
                        <= #[trigger] ob[j].0 - base,
            decreases other.data@.len() - i,
        {
            let (v, w) = other.data[i];
            proof {
                lemma_window_step(ob, i as int, start as int, end as int, base);
                assert(ob[i as int] == (v as int, w as int));
            }
            if start < v && v <= end {
                let ghost before = self@.breaks;
                self.data.push((v - start + self.len, w));
                assert(self@.breaks =~= before.push((v - base, w as int)));
            }
            i += 1;
        }
        assert(ob.take(other.data@.len() as int) =~= ob);
        let stop_x = if end < other.len {
            end
        } else {
            other.len
        };
        self.len = self.len + (stop_x - start);
        assert(self@ == joined(old_self, other@, start as int, end as int));
        if self.data.len() <= MAX_LEAF {
            None
        } else {
            let ghost j = self@;
            let splitpoint = self.data.len() / 2;
            let splitpoint_units = self.data[splitpoint - 1].0;
            let ghost jd = self.data@;
            assert(j.breaks[splitpoint - 1].0 == splitpoint_units);
            let mut new = self.data.split_off(splitpoint);
            let ghost tail = new@;
            assert forall|m: int| 0 <= m < tail.len() implies #[trigger] tail[m].0 >= splitpoint_units by {
                assert(tail[m] == jd[splitpoint + m]);
                assert(j.breaks[splitpoint + m].0 == jd[splitpoint + m].0);
                assert(j.breaks[splitpoint - 1].0 <= j.breaks[splitpoint + m].0);
            }
            let mut k: usize = 0;
            while k < new.len()
                invariant
                    k <= new@.len(),
                    new@.len() == tail.len(),
                    forall|m: int|
                        0 <= m < k ==> #[trigger] new@[m] == (
                            (tail[m].0 - splitpoint_units) as usize,
                            tail[m].1,
                        ),
                    forall|m: int| k <= m < new@.len() ==> #[trigger] new@[m] == tail[m],
                    forall|m: int| 0 <= m < tail.len() ==> #[trigger] tail[m].0 >= splitpoint_units,
                decreases new@.len() - k,
            {
                let (x, w) = new[k];
                new.set(k, (x - splitpoint_units, w));
                k += 1;
            }
            let new_len = self.len - splitpoint_units;
            self.len = splitpoint_units;
            let n = BreaksLeaf { len: new_len, data: new };
            assert(self@.breaks =~= j.breaks.take(splitpoint as int));
            assert(n@.breaks =~= shift(j.breaks.skip(splitpoint as int), -splitpoint_units));
            Some(n)
        }
    }
}

proof fn lemma_search_end(l: &BreaksLeaf, key: int, n: int)
    requires
        l.wf(),
        0 <= n <= l.data@.len(),
        (0 < n && l.data@[n - 1].0 == key) || ((forall|j: int| 0 <= j < n ==> #[trigger] l.data@[j].0 < key)
            && (forall|j: int| n <= j < l.data@.len() ==> #[trigger] l.data@[j].0 > key)),
    ensures
        search_end(l@.breaks, key, n),
{
    let b = l@.breaks;
    if 0 < n && l.data@[n - 1].0 == key {
        assert(b[n - 1].0 == key);
    } else {
        assert forall|j: int| 0 <= j < n implies #[trigger] b[j].0 < key by {
            assert(l.data@[j].0 < key);
        }
        assert forall|j: int| n <= j < b.len() implies #[trigger] b[j].0 > key by {
            assert(l.data@[j].0 > key);
        }
    }
}

/// Summary of a set of breaks: how many there are and the widest line.
#[derive(Clone, Debug)]
pub struct BreaksInfo {
    count: usize,
    max_width: usize,
}

impl BreaksInfo {
    /// Number of breaks summarised.
    pub closed spec fn count(&self) -> int {
        self.count as int
    }

    /// Widest line summarised.
    pub closed spec fn max_width(&self) -> int {
        self.max_width as int
    }

    /// Adds the breaks that `other` summarises to those of `self`.
    pub fn accumulate(&mut self, other: &BreaksInfo)
        requires
            old(self).count() + other.count() <= usize::MAX,
        ensures
            final(self).count() == old(self).count() + other.count(),
            final(self).max_width() == (if other.max_width() > old(self).max_width() {
                other.max_width()
            } else {
                old(self).max_width()
            }),
    {
        self.count += other.count;
        self.max_width = if other.max_width > self.max_width {
            other.max_width
        } else {
            self.max_width
        };
    }

    /// Summary of one leaf.
    pub fn compute_info(l: &BreaksLeaf) -> (r: BreaksInfo)
        requires
            l.wf(),
        ensures
            r.count() == l@.breaks.len(),
            r.max_width() == max_width_of(l@.breaks),
    {
        let ghost b = l@.breaks;
        let count = l.data.len();
        let mut max_width: usize = 0;
        let mut i: usize = 0;
        while i < l.data.len()
            invariant
                i <= l.data@.len(),
                b == l@.breaks,
                max_width == max_width_of(b.take(i as int)),
            decreases l.data@.len() - i,
        {
            let (_, w) = l.data[i];
            proof {
                assert(b.take(i + 1).drop_last() =~= b.take(i as int));
                assert(b[i as int].1 == w);
            }
            if w > max_width {
                max_width = w;
            }
            i += 1;
        }
        assert(b.take(l.data@.len() as int) =~= b);
        BreaksInfo { count, max_width }
    }
}

/// Measures a set of breaks in breaks: the n-th unit is the n-th break.
#[derive(Copy, Clone)]
pub struct BreaksMetric(());

impl BreaksMetric {
    /// Number of breaks that `info` summarises.
    pub fn measure(info: &BreaksInfo, _len: usize) -> (r: usize)
        ensures
            r == info.count(),
    {
        info.count
    }

    /// Offset of the `in_measured_units`-th break of `l`; 0 for none, and one
    /// past the end of the leaf when the leaf has fewer breaks.
    pub fn to_base_units(l: &BreaksLeaf, in_measured_units: usize) -> (r: usize)
        requires
            l.wf(),
            in_measured_units > l@.breaks.len() ==> l@.len < usize::MAX,
        ensures
            r == to_base(l@, in_measured_units as int),
    {
        if in_measured_units > l.data.len() {
            l.len + 1
        } else if in_measured_units == 0 {
            0
        } else {
            l.data[in_measured_units - 1].0
        }
    }

    /// Number of breaks of `l` up to the offset `in_base_units`: those before
    /// it, plus one when a break lies there.
    pub fn from_base_units(l: &BreaksLeaf, in_base_units: usize) -> (r: usize)
        requires
            l.wf(),
        ensures
            search_end(l@.breaks, in_base_units as int, r as int),
    {
        let r = match search_by_offset(&l.data, in_base_units) {
            Ok(n) => n + 1,
            Err(n) => n,
        };
        proof { lemma_search_end(l, in_base_units as int, r as int); }
        r
    }

    /// Whether a break of `l` lies at `offset`.
    pub fn is_boundary(l: &BreaksLeaf, offset: usize) -> (r: bool)
        requires
            l.wf(),
        ensures
            r == (exists|i: int| 0 <= i < l@.breaks.len() && #[trigger] l@.breaks[i].0 == offset),
    {
        let r = search_by_offset(&l.data, offset);
        proof {
            if let Err(n) = r {
                assert forall|i: int| 0 <= i < l@.breaks.len() implies #[trigger] l@.breaks[i].0
                    != offset by {
                    assert(l@.breaks[i].0 == l.data@[i].0);
                }
            } else if let Ok(n) = r {
                assert(l@.breaks[n as int].0 == l.data@[n as int].0);
            }
        }
        r.is_ok()
    }

    /// The last break of `l` strictly before `offset`, if any.
    pub fn prev(l: &BreaksLeaf, offset: usize) -> (r: Option<usize>)
        requires
            l.wf(),
        ensures
            match r {
                None => forall|i: int| 0 <= i < l@.breaks.len() ==> #[trigger] l@.breaks[i].0 >= offset,
                Some(x) => {
                    &&& x < offset
                    &&& exists|i: int| 0 <= i < l@.breaks.len() && #[trigger] l@.breaks[i].0 == x
                    &&& forall|i: int| 0 <= i < l@.breaks.len() && #[trigger] l@.breaks[i].0 < offset ==> l@.breaks[i].0 <= x
                },
            },
    {
        let ghost b = l@.breaks;
        let mut i: usize = 0;
        while i < l.data.len()
            invariant
                i <= l.data@.len(),
                b == l@.breaks,
                l.wf(),
                forall|k: int| 0 <= k < i ==> #[trigger] b[k].0 < offset,
            decreases l.data@.len() - i,
        {
            assert(b[i as int].0 == l.data@[i as int].0);
            if offset <= l.data[i].0 {
                if i == 0 {
                    return None;
                } else {
                    assert(b[i - 1].0 == l.data@[i - 1].0);
                    return Some(l.data[i - 1].0);
                }
            }
            i += 1;
        }
        if l.data.len() == 0 {
            None
        } else {
            let last = l.data.len() - 1;
            assert(b[last as int].0 == l.data@[last as int].0);
            Some(l.data[last].0)
        }
    }

    /// The break of `l` that a search for `offset` ends at: the first one
    /// after the break at `offset` when there is one, otherwise the first one
    /// after `offset`; `None` when the search ends past the last break.
    pub fn next(l: &BreaksLeaf, offset: usize) -> (r: Option<usize>)
        requires
            l.wf(),
        ensures
            exists|n: int|
                #[trigger] search_end(l@.breaks, offset as int, n) && r == (if n == l@.breaks.len() {
                    None
                } else {
                    Some(l@.breaks[n].0 as usize)
                }),
    {
        let n = match search_by_offset(&l.data, offset) {
            Ok(n) => n + 1,
            Err(n) => n,
        };
        proof { lemma_search_end(l, offset as int, n as int); }
        if n == l.data.len() {
            None
        } else {
            assert(l@.breaks[n as int].0 == l.data@[n as int].0);
            Some(l.data[n].0)
        }
    }

    /// Breaks may fall anywhere inside a leaf.
    pub fn can_fragment() -> (r: bool)
        ensures
            r,
    {
        true
    }
}

/// Measures a set of breaks in base units.
#[derive(Copy, Clone)]
pub struct BreaksBaseMetric(());

impl BreaksBaseMetric {
    /// The length itself.
    pub fn measure(_info: &BreaksInfo, len: usize) -> (r: usize)
        ensures
            r == len,
    {
        len
    }

    /// Base units are already base units.
    pub fn to_base_units(_l: &BreaksLeaf, in_measured_units: usize) -> (r: usize)
        ensures
            r == in_measured_units,
    {
        in_measured_units
    }

    /// Base units are already base units.
    pub fn from_base_units(_l: &BreaksLeaf, in_base_units: usize) -> (r: usize)
        ensures
            r == in_base_units,
    {
        in_base_units
    }

    /// Whether a break of `l` lies at `offset`.
    pub fn is_boundary(l: &BreaksLeaf, offset: usize) -> (r: bool)
        requires
            l.wf(),
        ensures
            r == (exists|i: int| 0 <= i < l@.breaks.len() && #[trigger] l@.breaks[i].0 == offset),
    {
        BreaksMetric::is_boundary(l, offset)
    }

    /// The last break of `l` strictly before `offset`, if any.
    pub fn prev(l: &BreaksLeaf, offset: usize) -> (r: Option<usize>)
        requires
            l.wf(),
        ensures
            match r {
                None => forall|i: int| 0 <= i < l@.breaks.len() ==> #[trigger] l@.breaks[i].0 >= offset,
                Some(x) => {
                    &&& x < offset
                    &&& exists|i: int| 0 <= i < l@.breaks.len() && #[trigger] l@.breaks[i].0 == x
                    &&& forall|i: int| 0 <= i < l@.breaks.len() && #[trigger] l@.breaks[i].0 < offset ==> l@.breaks[i].0 <= x
                },
            },
    {
        BreaksMetric::prev(l, offset)
    }

    /// The break of `l` that a search for `offset` ends at (see `BreaksMetric::next`).
    pub fn next(l: &BreaksLeaf, offset: usize) -> (r: Option<usize>)
        requires
            l.wf(),
        ensures
            exists|n: int|
                #[trigger] search_end(l@.breaks, offset as int, n) && r == (if n == l@.breaks.len() {
                    None
                } else {
                    Some(l@.breaks[n].0 as usize)
                }),
    {
        BreaksMetric::next(l, offset)
    }

    /// Breaks may fall anywhere inside a leaf.
    pub fn can_fragment() -> (r: bool)
        ensures
            r,
    {
        true
    }
}

// ---------------------------------------------------------------------------
//  Whole sets of breaks
// ---------------------------------------------------------------------------

/// The models of the leaves `ls`, in order.
pub open spec fn leaf_models(ls: Seq<BreaksLeaf>) -> Seq<BreaksModel> {
    ls.map_values(|l: BreaksLeaf| l@)
}

/// Every leaf of `ls` is well formed.
pub open spec fn leaves_wf(ls: Seq<BreaksLeaf>) -> bool {
    forall|i: int| 0 <= i < ls.len() ==> #[trigger] ls[i].wf()
}

/// A set of indexes, each with a width. A motivating use is storing line
/// breaks. It is kept as a sequence of leaves together with its length and
/// summary.
pub struct Breaks {
    leaves: Vec<BreaksLeaf>,
    len: usize,
    info: BreaksInfo,
}

impl View for Breaks {
    type V = BreaksModel;

    /// The leaves one after the other.
    closed spec fn view(&self) -> BreaksModel {
        flatten(leaf_models(self.leaves@))
    }
}

impl Breaks {
    /// The length and summary are those of the leaves, and fit a `usize`.
    #[verifier::type_invariant]
    closed spec fn inv(self) -> bool {
        let m = flatten(leaf_models(self.leaves@));
        &&& leaves_wf(self.leaves@)
        &&& m.len == self.len
        &&& m.breaks.len() <= usize::MAX
        &&& self.info.count() == m.breaks.len()
        &&& self.info.max_width() == max_width_of(m.breaks)
        &&& model_wf(m)
    }

    /// The set made of `leaves`, one after the other.
    fn from_leaves(leaves: Vec<BreaksLeaf>) -> (r: Breaks)
        requires
            leaves_wf(leaves@),
            flatten(leaf_models(leaves@)).len <= usize::MAX,
            flatten(leaf_models(leaves@)).breaks.len() <= usize::MAX,
        ensures
            r@ == flatten(leaf_models(leaves@)),
            model_wf(r@),
    {
        let ghost ms = leaf_models(leaves@);
        let mut len: usize = 0;
        let mut info = BreaksInfo { count: 0, max_width: 0 };
        let mut i: usize = 0;
        proof {
            assert(ms.take(0) =~= Seq::<BreaksModel>::empty());
        }
        while i < leaves.len()
            invariant
                i <= leaves@.len(),
                ms == leaf_models(leaves@),
                leaves_wf(leaves@),
                flatten(ms).len <= usize::MAX,
                flatten(ms).breaks.len() <= usize::MAX,
                len == flatten(ms.take(i as int)).len,
                info.count() == flatten(ms.take(i as int)).breaks.len(),
                info.max_width() == max_width_of(flatten(ms.take(i as int)).breaks),
            decreases leaves@.len() - i,
        {
            let l = &leaves[i];
            proof {
                let f = flatten(ms.take(i as int));
                assert(ms[i as int] == l@);
                assert(ms.take(i + 1) =~= ms.take(i as int).push(ms[i as int]));
                lemma_flatten_push(ms.take(i as int), ms[i as int]);
                assert forall|k: int| 0 <= k < ms.len() implies #[trigger] ms[k].len >= 0 by {
                    assert(leaves@[k].wf());
                }
                lemma_flatten_prefix(ms, i + 1);
                lemma_max_width_concat(f.breaks, l@.breaks, f.len);
            }
            len = len + l.len;
            let li = BreaksInfo::compute_info(l);
            info.accumulate(&li);
            i += 1;
        }
        proof {
            assert(ms.take(leaves@.len() as int) =~= ms);
            assert forall|k: int| 0 <= k < ms.len() implies model_wf(#[trigger] ms[k]) by {
                assert(leaves@[k].wf());
            }
            crate::breaks_model::lemma_flatten_wf(ms);
        }
        Breaks { leaves, len, info }
    }

    /// A length with no break, useful in edit operations; for other uses,
    /// use the builder.
    pub fn new_no_break(len: usize) -> (r: Breaks)
        ensures
            r@ == (BreaksModel { len: len as int, breaks: Seq::empty() }),
            model_wf(r@),
    {
        let leaf = BreaksLeaf { len, data: Vec::new() };
        let mut leaves: Vec<BreaksLeaf> = Vec::new();
        leaves.push(leaf);
        proof {
            assert(leaf@.breaks =~= Seq::empty());
            assert(leaf_models(leaves@) =~= seq![leaf@]);
            lemma_flatten_one(leaf@);
        }
        Breaks::from_leaves(leaves)
    }

    /// Length in base units.
    pub fn len(&self) -> (r: usize)
        ensures
            r == self@.len,
            model_wf(self@),
    {
        proof {
            use_type_invariant(self);
        }
        self.len
    }

    /// The breaks, offsets from the start and widths, as a new vector.
    pub fn get_data_cloned(&self) -> (r: Vec<(Offset, Width)>)
        ensures
            int_pairs(r@) == self@.breaks,
    {
        proof {
            use_type_invariant(self);
        }
        let ghost ms = leaf_models(self.leaves@);
        let mut r: Vec<(Offset, Width)> = Vec::new();
        let mut o: usize = 0;
        let mut i: usize = 0;
        proof {
            assert(ms.take(0) =~= Seq::<BreaksModel>::empty());
            assert(int_pairs(r@) =~= Seq::empty());
            assert forall|k: int| 0 <= k < ms.len() implies #[trigger] ms[k].len >= 0 by {
                assert(self.leaves@[k].wf());
            }
        }
        while i < self.leaves.len()
            invariant
                i <= self.leaves@.len(),
                ms == leaf_models(self.leaves@),
                leaves_wf(self.leaves@),
                forall|k: int| 0 <= k < ms.len() ==> #[trigger] ms[k].len >= 0,
                flatten(ms).len <= usize::MAX,
                o == flatten(ms.take(i as int)).len,
                int_pairs(r@) == flatten(ms.take(i as int)).breaks,
            decreases self.leaves@.len() - i,
        {
            let l = &self.leaves[i];
            let ghost f = flatten(ms.take(i as int));
            proof {
                assert(ms[i as int] == l@);
                assert(self.leaves@[i as int].wf());
                assert(ms.take(i + 1) =~= ms.take(i as int).push(ms[i as int]));
                lemma_flatten_push(ms.take(i as int), ms[i as int]);
                lemma_flatten_prefix(ms, i + 1);
            }
            let mut k: usize = 0;
            while k < l.data.len()
                invariant
                    k <= l.data@.len(),
                    l.wf(),
                    o == f.len,
                    f.len + l@.len <= usize::MAX,
                    int_pairs(r@) == f.breaks + shift(l@.breaks.take(k as int), f.len),
                decreases l.data@.len() - k,
            {
                let (x, w) = l.data[k];
                proof {
                    assert(l@.breaks[k as int] == (x as int, w as int));
                }
                let ghost before = r@;
                r.push((o + x, w));
                proof {
                    assert(l@.breaks.take(k + 1) =~= l@.breaks.take(k as int).push(l@.breaks[k as int]));
                    assert(int_pairs(r@) =~= int_pairs(before).push(((o + x) as int, w as int)));
                    assert(shift(l@.breaks.take(k + 1), f.len) =~= shift(l@.breaks.take(k as int), f.len).push(
                        (x + f.len, w as int),
                    ));
                    assert(int_pairs(r@) =~= f.breaks + shift(l@.breaks.take(k + 1), f.len));
                }
                k += 1;
            }
            proof {
                assert(l@.breaks.take(l.data@.len() as int) =~= l@.breaks);
            }
            o = o + l.len;
            i += 1;
        }
        proof {
            assert(ms.take(self.leaves@.len() as int) =~= ms);
        }
        r
    }

    /// Width of the widest line; 0 when there is no break.
    pub fn max_width(&self) -> (r: Width)
        ensures
            r == max_width_of(self@.breaks),
    {
        proof {
            use_type_invariant(self);
        }
        self.info.max_width
    }

    /// Replaces the part `iv` of this set with `new`: the breaks in
    /// `(iv.start, iv.end]` give way to those of `new`, and the breaks after
    /// `iv.end` move by the difference in length.
    pub fn edit(&mut self, iv: std::ops::Range<usize>, new: Breaks)
        requires
            iv.start <= iv.end <= old(self)@.len,
            old(self)@.len - (iv.end - iv.start) + new@.len <= usize::MAX,
            old(self)@.breaks.len() + new@.breaks.len() <= usize::MAX,
        ensures
            final(self)@ == edited(old(self)@, iv.start as int, iv.end as int, new@),
            model_wf(final(self)@),
    {
        proof {
            use_type_invariant(&*self);
            use_type_invariant(&new);
        }
        let start = iv.start;
        let end = iv.end;
        let ghost m = self@;
        let mut out: Vec<BreaksLeaf> = Vec::new();
        proof {
            assert(leaf_models(out@) =~= Seq::<BreaksModel>::empty());
            lemma_concat_empty(subseq(m, 0, start as int));
        }
        push_subseq(&mut out, &self.leaves, 0, start);
        let ghost nl = new.leaves@;
        let Breaks { leaves: mut new_leaves, .. } = new;
        let ghost before = out@;
        out.append(&mut new_leaves);
        proof {
            assert(leaf_models(out@) =~= leaf_models(before) + leaf_models(nl));
            lemma_flatten_append(leaf_models(before), leaf_models(nl));
            assert(leaves_wf(out@)) by {
                assert forall|k: int| 0 <= k < out@.len() implies #[trigger] out@[k].wf() by {
                    if k >= before.len() {
                        assert(out@[k] == nl[k - before.len()]);
                    }
                }
            }
        }
        let len = self.len;
        push_subseq(&mut out, &self.leaves, end, len);
        proof {
            lemma_windows_disjoint(m.breaks, 0, start as int, 0, end as int, m.len, end as int);
        }
        *self = Breaks::from_leaves(out);
    }
}

impl Default for Breaks {
    /// The empty set: no length and no break.
    fn default() -> (r: Breaks)
        ensures
            r@ == empty_model(),
            model_wf(r@),
    {
        let r = Breaks::new_no_break(0);
        assert(r@ =~= empty_model());
        r
    }
}

/// Builds a set of breaks from its lines, first to last.
pub struct BreakBuilder {
    b: Vec<BreaksLeaf>,
    leaf: BreaksLeaf,
}

impl View for BreakBuilder {
    type V = BreaksModel;

    /// What has been added so far: the finished leaves, then the open one.
    closed spec fn view(&self) -> BreaksModel {
        flatten(leaf_models(self.b@).push(self.leaf@))
    }
}

impl Default for BreakBuilder {
    fn default() -> (r: BreakBuilder)
        ensures
            r.wf(),
            r@ == empty_model(),
    {
        let r = BreakBuilder { b: Vec::new(), leaf: BreaksLeaf::default() };
        proof {
            assert(leaf_models(r.b@).push(r.leaf@) =~= seq![r.leaf@]);
            lemma_flatten_one(r.leaf@);
        }
        r
    }
}

impl BreakBuilder {
    /// The leaves are well formed and what has been added fits a `usize`.
    pub closed spec fn wf(&self) -> bool {
        &&& leaves_wf(self.b@)
        &&& self.leaf.wf()
        &&& self@.len <= usize::MAX
        &&& self@.breaks.len() <= usize::MAX
    }

    /// A builder with nothing added yet.
    pub fn new() -> (r: BreakBuilder)
        ensures
            r.wf(),
            r@ == empty_model(),
    {
        BreakBuilder::default()
    }

    /// Adds a line of `len` base units ended by a break of width `width`.
    pub fn add_break(&mut self, len: usize, width: Width)
        requires
            old(self).wf(),
            old(self)@.len + len <= usize::MAX,
            old(self)@.breaks.len() < usize::MAX,
        ensures
            final(self).wf(),
            final(self)@ == after_step(old(self)@, len as int, Some(width as int)),
    {
        let ghost old_view = self@;
        if self.leaf.data.len() == MAX_LEAF {
            let mut leaf = BreaksLeaf::default();
            std::mem::swap(&mut leaf, &mut self.leaf);
            let ghost ob = self.b@;
            self.b.push(leaf);
            proof {
                assert(leaf_models(self.b@) =~= leaf_models(ob).push(leaf@));
                lemma_flatten_push(leaf_models(ob), leaf@);
                lemma_flatten_push(leaf_models(self.b@), self.leaf@);
                lemma_concat_empty(flatten(leaf_models(self.b@)));
                assert(leaves_wf(self.b@)) by {
                    assert forall|k: int| 0 <= k < self.b@.len() implies #[trigger] self.b@[k].wf() by {
                        if k < ob.len() {
                            assert(self.b@[k] == ob[k]);
                        }
                    }
                }
            }
        }
        let ghost f = flatten(leaf_models(self.b@));
        let ghost lm = self.leaf@;
        proof {
            lemma_flatten_push(leaf_models(self.b@), self.leaf@);
            assert forall|k: int| 0 <= k < self.b@.len() implies #[trigger] leaf_models(self.b@)[k].len >= 0 by {
                assert(self.b@[k].wf());
            }
            crate::breaks_model::lemma_flatten_nonneg(leaf_models(self.b@));
        }
        self.leaf.len = self.leaf.len + len;
        let at = self.leaf.len;
        self.leaf.data.push((at, width));
        proof {
            assert(self.leaf@.breaks =~= lm.breaks.push((lm.len + len, width as int)));
            lemma_flatten_push(leaf_models(self.b@), self.leaf@);
            assert(f.breaks + shift(lm.breaks.push((lm.len + len, width as int)), f.len) =~= (f.breaks
                + shift(lm.breaks, f.len)).push((f.len + lm.len + len, width as int)));
        }
    }

    /// Adds `len` base units with no break.
    pub fn add_no_break(&mut self, len: usize)
        requires
            old(self).wf(),
            old(self)@.len + len <= usize::MAX,
        ensures
            final(self).wf(),
            final(self)@ == after_step(old(self)@, len as int, None),
    {
        proof {
            lemma_flatten_push(leaf_models(self.b@), self.leaf@);
            assert forall|k: int| 0 <= k < self.b@.len() implies #[trigger] leaf_models(self.b@)[k].len >= 0 by {
                assert(self.b@[k].wf());
            }
            crate::breaks_model::lemma_flatten_nonneg(leaf_models(self.b@));
        }
        self.leaf.len = self.leaf.len + len;
        proof {
            lemma_flatten_push(leaf_models(self.b@), self.leaf@);
        }
    }

    /// The set of breaks added so far.
    pub fn build(self) -> (r: Breaks)
        requires
            self.wf(),
        ensures
            r@ == self@,
            model_wf(r@),
    {
        let mut b = self.b;
        let ghost ob = b@;
        b.push(self.leaf);
        proof {
            assert(leaf_models(b@) =~= leaf_models(ob).push(self.leaf@));
            assert(leaves_wf(b@)) by {
                assert forall|k: int| 0 <= k < b@.len() implies #[trigger] b@[k].wf() by {
                    if k < ob.len() {
                        assert(b@[k] == ob[k]);
                    }
                }
            }
        }
        Breaks::from_leaves(b)
    }
}

/// Appends to `out` the leaves that make up the part `(a, b]` of `leaves`:
/// for each leaf that touches that part, its slice, taken with
/// `push_maybe_split` (a slice that starts at the leaf's start keeps the
/// leaf's breaks at offset 0).
fn push_subseq(out: &mut Vec<BreaksLeaf>, leaves: &Vec<BreaksLeaf>, a: usize, b: usize)
    requires
        leaves_wf(leaves@),
        leaves_wf(old(out)@),
        a <= b <= flatten(leaf_models(leaves@)).len,
        flatten(leaf_models(leaves@)).len <= usize::MAX,
    ensures
        leaves_wf(final(out)@),
        flatten(leaf_models(final(out)@)) == concat(
            flatten(leaf_models(old(out)@)),
            subseq(flatten(leaf_models(leaves@)), a as int, b as int),
        ),
{
    let ghost ms = leaf_models(leaves@);
    let ghost out0 = flatten(leaf_models(out@));
    let mut o: usize = 0;
    let mut i: usize = 0;
    proof {
        assert(ms.take(0) =~= Seq::<BreaksModel>::empty());
        assert(clipped(empty_model(), a as int, b as int) =~= empty_model());
        lemma_concat_empty(out0);
    }
    while i < leaves.len()
        invariant
            i <= leaves@.len(),
            ms == leaf_models(leaves@),
            leaves_wf(leaves@),
            leaves_wf(out@),
            a <= b <= flatten(ms).len <= usize::MAX,
            o == flatten(ms.take(i as int)).len,
            flatten(leaf_models(out@)) == concat(out0, clipped(flatten(ms.take(i as int)), a as int, b as int)),
        decreases leaves@.len() - i,
    {
        let l = &leaves[i];
        let ghost f = flatten(ms.take(i as int));
        let ghost cur = clipped(f, a as int, b as int);
        let ghost x = l@.breaks;
        proof {
            assert(ms[i as int] == l@);
            assert(leaves@[i as int].wf());
            assert(ms.take(i + 1) =~= ms.take(i as int).push(ms[i as int]));
            lemma_flatten_push(ms.take(i as int), ms[i as int]);
            assert forall|k: int| 0 <= k < ms.len() implies #[trigger] ms[k].len >= 0 by {
                assert(leaves@[k].wf());
            }
            lemma_flatten_prefix(ms, i + 1);
            lemma_window_add(f.breaks, shift(x, o as int), a as int, b as int, a as int);
            lemma_window_shift(x, o as int, a as int, b as int, a as int);
        }
        let ghost next = clipped(flatten(ms.take(i + 1)), a as int, b as int);
        if o <= b && a <= o + l.len {
            let s = if a > o {
                a - o
            } else {
                0
            };
            let e = if b < o + l.len {
                b - o
            } else {
                l.len
            };
            let mut piece = BreaksLeaf::default();
            let mut z: usize = 0;
            assert(piece@.breaks.len() == 0);
            assert(int_pairs(piece.data@).len() == piece.data@.len());
            assert(piece.data@ =~= l.data@.take(0));
            if a < o {
                while z < l.data.len() && l.data[z].0 == 0
                    invariant
                        z <= l.data@.len(),
                        piece.len == 0,
                        piece.data@ == l.data@.take(z as int),
                        forall|k: int| 0 <= k < z ==> #[trigger] l.data@[k].0 == 0,
                    decreases l.data@.len() - z,
                {
                    piece.data.push(l.data[z]);
                    z += 1;
                    assert(piece.data@ =~= l.data@.take(z as int));
                }
            }
            proof {
                assert forall|k: int| 0 <= k < z implies #[trigger] x[k].0 == 0 by {
                    assert(x[k].0 == l.data@[k].0);
                }
                if z < x.len() {
                    assert(x[z as int].0 == l.data@[z as int].0);
                }
                assert(piece@.breaks =~= (if a < o { x.take(z as int) } else { Seq::empty() }));
                lemma_leaf_piece(x, l.len as int, z as int, a as int, b as int, o as int);
            }
            let ghost piece0 = piece@;
            let ghost j = joined(piece0, l@, s as int, e as int);
            let split = piece.push_maybe_split(l, s, e);
            proof {
                lemma_shift_window(x, a - o, b - o, s as int, cur.len);
                lemma_concat_assoc(out0, cur, j);
            }
            let ghost before = out@;
            match split {
                None => {
                    out.push(piece);
                    proof {
                        assert(before.push(piece)[before.len() as int] == piece);
                        assert(leaf_models(out@) =~= leaf_models(before).push(piece@));
                        lemma_flatten_push(leaf_models(before), piece@);
                    }
                },
                Some(n) => {
                    let ghost front = piece@;
                    out.push(piece);
                    out.push(n);
                    proof {
                        assert(leaf_models(out@) =~= leaf_models(before).push(front).push(n@));
                        lemma_flatten_push(leaf_models(before), front);
                        lemma_flatten_push(leaf_models(before).push(front), n@);
                        lemma_concat_assoc(flatten(leaf_models(before)), front, n@);
                        lemma_split_concat(j, (j.breaks.len() / 2) as int);
                    }
                },
            }
            proof {
                assert(concat(cur, j) == next);
            }
        } else {
            proof {
                lemma_window_none(x, a - o, b - o, a - o);
                assert(cur.breaks + Seq::empty() =~= cur.breaks);
                assert(cur == next);
            }
        }
        o = o + l.len;
        i += 1;
    }
    proof {
        assert(ms.take(leaves@.len() as int) =~= ms);
    }
}

} // verus!
