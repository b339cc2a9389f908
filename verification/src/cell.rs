//! The candidate cell: the heights that one grid position may still hold.

use vstd::prelude::*;

verus! {

/// The integers that a vector of machine words stands for.
pub open spec fn as_ints(s: Seq<usize>) -> Seq<int> {
    s.map_values(|x: usize| x as int)
}

/// The heights `1, 2, .., n` in ascending order.
pub open spec fn all_heights(n: nat) -> Seq<int> {
    Seq::new(n, |i: int| i + 1)
}

/// The test "is not `v`".
pub open spec fn other_than(v: int) -> spec_fn(int) -> bool {
    |x: int| x != v
}

/// Every entry is smaller than every later entry.
pub open spec fn ascending(s: Seq<int>) -> bool {
    forall|i: int, j: int| 0 <= i < j < s.len() ==> s[i] < s[j]
}

/// Every entry is a height of a puzzle of side `n`.
pub open spec fn within(s: Seq<int>, n: nat) -> bool {
    forall|i: int| 0 <= i < s.len() ==> 1 <= #[trigger] s[i] <= n
}

/// What a cell stands for: the side length of its puzzle and the heights that
/// are still possible, listed in ascending order.
pub struct CellModel {
    pub n: nat,
    pub numbers: Seq<int>,
}

impl CellModel {
    /// The cell in which every height of the puzzle is still possible.
    pub open spec fn full(n: nat) -> CellModel {
        CellModel { n, numbers: all_heights(n) }
    }

    /// A cell of a consistent puzzle: at least one candidate, each candidate a
    /// height of the puzzle, none listed twice, smallest first.
    pub open spec fn valid(self) -> bool {
        &&& self.numbers.len() >= 1
        &&& within(self.numbers, self.n)
        &&& ascending(self.numbers)
    }

    /// Whether `v` is a candidate.
    pub open spec fn contains(self, v: int) -> bool {
        self.numbers.contains(v)
    }

    /// Exactly one candidate is left.
    pub open spec fn solved(self) -> bool {
        self.numbers.len() == 1
    }

    /// The largest candidate of a valid cell.
    pub open spec fn largest(self) -> int {
        self.numbers.last()
    }

    /// The cell with only `v` left, if `v` is a height of the puzzle; the cell
    /// as it is otherwise.
    pub open spec fn restrict_to(self, v: int) -> CellModel {
        if 0 < v <= self.n {
            CellModel { n: self.n, numbers: seq![v] }
        } else {
            self
        }
    }

    /// The cell with exactly the candidates `vs`, if `vs` names at least one and
    /// at most `n` of them; the cell as it is otherwise.
    pub open spec fn restrict_to_all(self, vs: Seq<int>) -> CellModel {
        if 0 < vs.len() <= self.n {
            CellModel { n: self.n, numbers: vs }
        } else {
            self
        }
    }

    /// Whether every entry of `vs` is a candidate.
    pub open spec fn contains_all(self, vs: Seq<int>) -> bool {
        forall|i: int| 0 <= i < vs.len() ==> self.numbers.contains(#[trigger] vs[i])
    }

    /// The cell without `v`. The last candidate is never taken away: a cell
    /// with one candidate stays as it is, also where that candidate is `v`.
    pub open spec fn remove(self, v: int) -> CellModel {
        if self.numbers.contains(v) && self.numbers.len() > 1 {
            CellModel { n: self.n, numbers: self.numbers.filter(other_than(v)) }
        } else {
            self
        }
    }

    /// The cell after `remove` of each entry of `vs`, first entry first.
    pub open spec fn remove_all(self, vs: Seq<int>) -> CellModel
        decreases vs.len(),
    {
        if vs.len() == 0 {
            self
        } else {
            self.remove_all(vs.drop_last()).remove(vs.last())
        }
    }
}

/// Filtering an ascending sequence keeps it ascending, keeps nothing that was
/// not there, and keeps all that passes the test.
pub proof fn lemma_filter_ascending(s: Seq<int>, p: spec_fn(int) -> bool)
    requires
        ascending(s),
    ensures
        ascending(s.filter(p)),
        s.filter(p).len() <= s.len(),
        forall|i: int|
            0 <= i < s.filter(p).len() ==> s.contains(#[trigger] s.filter(p)[i]) && p(
                s.filter(p)[i],
            ),
        forall|j: int| 0 <= j < s.len() && p(s[j]) ==> s.filter(p).contains(#[trigger] s[j]),
    decreases s.len(),
{
    reveal(Seq::filter);
    let out = s.filter(p);
    if s.len() > 0 {
        let front = s.drop_last();
        let kept = front.filter(p);
        lemma_filter_ascending(front, p);
        assert forall|i: int| 0 <= i < kept.len() implies s.contains(#[trigger] kept[i])
            && kept[i] < s.last() by {
            let j = choose|j: int| 0 <= j < front.len() && front[j] == kept[i];
            assert(s[j] == kept[i]);
        }
        assert forall|i: int| 0 <= i < out.len() implies s.contains(#[trigger] out[i]) && p(
            out[i],
        ) by {
            if i < kept.len() {
                assert(out[i] == kept[i]);
            } else {
                assert(out[i] == s[s.len() - 1]);
            }
        }
        assert forall|j: int| 0 <= j < s.len() && p(s[j]) implies out.contains(
            #[trigger] s[j],
        ) by {
            if j < front.len() {
                assert(front[j] == s[j]);
                assert(kept.contains(front[j]));
                let i = choose|i: int| 0 <= i < kept.len() && kept[i] == s[j];
                assert(out[i] == s[j]);
            } else {
                assert(out[out.len() - 1] == s[j]);
            }
        }
        assert forall|i: int, j: int| 0 <= i < j < out.len() implies out[i] < out[j] by {
            if j < kept.len() {
                assert(out[i] == kept[i] && out[j] == kept[j]);
            } else {
                assert(out[i] == kept[i]);
            }
        }
    }
}

/// After `remove` the cell holds `v` only as its one candidate, and nothing
/// that it did not hold before. A cell with one candidate stays as it is.
pub proof fn lemma_remove(c: CellModel, v: int)
    ensures
        c.remove(v).n == c.n,
        c.remove(v).numbers.len() <= c.numbers.len(),
        !c.remove(v).contains(v) || c.remove(v).solved(),
        forall|w: int| c.remove(v).contains(w) ==> c.contains(w),
        c.solved() ==> c.remove(v) == c,
{
    if c.numbers.contains(v) && c.numbers.len() > 1 {
        let p = other_than(v);
        let out = c.numbers.filter(p);
        c.numbers.lemma_filter_len(p);
        if out.contains(v) {
            let i = choose|i: int| 0 <= i < out.len() && out[i] == v;
            c.numbers.lemma_filter_pred(p, i);
        }
        assert forall|w: int| out.contains(w) implies c.numbers.contains(w) by {
            c.numbers.lemma_filter_contains_rev(p, w);
        }
    }
}

/// `remove` keeps a valid cell valid.
pub proof fn lemma_remove_valid(c: CellModel, v: int)
    requires
        c.valid(),
    ensures
        c.remove(v).valid(),
{
    if c.numbers.contains(v) && c.numbers.len() > 1 {
        let p = other_than(v);
        let out = c.numbers.filter(p);
        lemma_filter_ascending(c.numbers, p);
        let w = if c.numbers[0] == v {
            c.numbers[1]
        } else {
            c.numbers[0]
        };
        assert(c.numbers[0] < c.numbers[1]);
        assert(p(w));
        assert(out.contains(w));
        assert forall|i: int| 0 <= i < out.len() implies 1 <= #[trigger] out[i] <= c.n by {
            assert(c.numbers.contains(out[i]));
        }
    }
}

/// After a run of removals the cell holds nothing that it did not hold
/// before. A value that the run names, or that the cell did not hold, is not
/// held afterwards, unless the cell is down to one candidate. A cell with one
/// candidate stays as it is.
pub proof fn lemma_remove_all(c: CellModel, vs: Seq<int>, v: int)
    ensures
        c.remove_all(vs).n == c.n,
        forall|w: int| c.remove_all(vs).contains(w) ==> c.contains(w),
        vs.contains(v) || !c.contains(v) || c.solved() ==> !c.remove_all(vs).contains(v)
            || c.remove_all(vs).solved(),
        c.solved() ==> c.remove_all(vs) == c,
    decreases vs.len(),
{
    if vs.len() > 0 {
        let front = vs.drop_last();
        let mid = c.remove_all(front);
        lemma_remove_all(c, front, v);
        lemma_remove(mid, vs.last());
        if vs.contains(v) {
            let i = choose|i: int| 0 <= i < vs.len() && vs[i] == v;
            if i < front.len() {
                assert(front[i] == v);
            }
        }
    }
}

/// The test "is not an entry of `vs`".
pub open spec fn none_of(vs: Seq<int>) -> spec_fn(int) -> bool {
    |x: int| !vs.contains(x)
}

/// Filtering by "is not an entry of `vs`" and then by "is not `v`" is
/// filtering by "is not an entry of `vs` with `v` added".
proof fn lemma_filter_none_of(s: Seq<int>, vs: Seq<int>, v: int)
    ensures
        s.filter(none_of(vs)).filter(other_than(v)) == s.filter(none_of(vs.push(v))),
    decreases s.len(),
{
    reveal(Seq::filter);
    let p = none_of(vs);
    let q = other_than(v);
    let pq = none_of(vs.push(v));
    if s.len() > 0 {
        let front = s.drop_last();
        let x = s.last();
        lemma_filter_none_of(front, vs, v);
        front.filter(p).lemma_filter_push(x, q);
        assert(pq(x) == (p(x) && q(x))) by {
            if vs.push(v).contains(x) {
                let i = choose|i: int| 0 <= i < vs.push(v).len() && vs.push(v)[i] == x;
                if i < vs.len() {
                    assert(vs[i] == x);
                }
            }
            if vs.contains(x) {
                let i = choose|i: int| 0 <= i < vs.len() && vs[i] == x;
                assert(vs.push(v)[i] == x);
            }
            if x == v {
                assert(vs.push(v)[vs.len() as int] == x);
            }
        }
    }
}

/// Filtering by a test that every entry passes changes nothing.
proof fn lemma_filter_all_pass(s: Seq<int>, p: spec_fn(int) -> bool)
    requires
        forall|i: int| 0 <= i < s.len() ==> p(#[trigger] s[i]),
    ensures
        s.filter(p) == s,
    decreases s.len(),
{
    reveal(Seq::filter);
    if s.len() > 0 {
        let front = s.drop_last();
        assert forall|i: int| 0 <= i < front.len() implies p(#[trigger] front[i]) by {
            assert(front[i] == s[i]);
        }
        lemma_filter_all_pass(front, p);
        assert(front.push(s.last()) =~= s);
    }
}

/// What a run of removals leaves of a valid cell: the candidates that the
/// run does not name, in their order. Where it names them all, one of them is
/// left.
pub proof fn lemma_remove_all_valid(c: CellModel, vs: Seq<int>)
    requires
        c.valid(),
    ensures
        c.remove_all(vs).valid(),
        c.remove_all(vs).n == c.n,
        c.numbers.filter(none_of(vs)).len() > 0 ==> c.remove_all(vs).numbers == c.numbers.filter(
            none_of(vs),
        ),
        c.numbers.filter(none_of(vs)).len() == 0 ==> c.remove_all(vs).solved() && c.contains(
            c.remove_all(vs).numbers[0],
        ),
    decreases vs.len(),
{
    if vs.len() == 0 {
        assert forall|i: int| 0 <= i < c.numbers.len() implies none_of(vs)(
            #[trigger] c.numbers[i],
        ) by {}
        lemma_filter_all_pass(c.numbers, none_of(vs));
    } else {
        let front = vs.drop_last();
        let v = vs.last();
        let mid = c.remove_all(front);
        let kept = c.numbers.filter(none_of(front));
        lemma_remove_all_valid(c, front);
        lemma_remove(mid, v);
        lemma_remove_valid(mid, v);
        lemma_filter_none_of(c.numbers, front, v);
        assert(front.push(v) =~= vs);
        if kept.len() > 0 {
            if mid.numbers.contains(v) {
                if mid.numbers.len() == 1 {
                    reveal_with_fuel(Seq::filter, 2);
                    let i = choose|i: int| 0 <= i < mid.numbers.len() && mid.numbers[i] == v;
                    assert(mid.numbers.drop_last().len() == 0);
                    assert(kept.filter(other_than(v)).len() == 0);
                    lemma_filter_ascending(c.numbers, none_of(front));
                    assert(c.numbers.contains(kept[0]));
                }
            } else {
                assert forall|i: int| 0 <= i < kept.len() implies other_than(v)(
                    #[trigger] kept[i],
                ) by {
                    assert(mid.numbers[i] == kept[i]);
                }
                lemma_filter_all_pass(kept, other_than(v));
            }
        } else {
            reveal_with_fuel(Seq::filter, 1);
        }
    }
}

/// Where each entry is smaller than the next, each is smaller than every
/// later one.
proof fn lemma_steps_ascend(s: Seq<usize>, a: int, b: int)
    requires
        0 <= a < b < s.len(),
        forall|j: int| 0 < j < s.len() ==> s[j - 1] < #[trigger] s[j],
    ensures
        s[a] < s[b],
    decreases b - a,
{
    if a + 1 < b {
        lemma_steps_ascend(s, a, b - 1);
    }
}

/// The full cell of a puzzle with at least one height is valid.
pub proof fn lemma_full_valid(n: nat)
    requires
        n >= 1,
    ensures
        CellModel::full(n).valid(),
{
}

/// A candidate cell of a puzzle of side `n`.
#[derive(Debug, PartialEq)]
pub struct Cell {
    pub n: usize,
    pub numbers: Vec<usize>,
}

impl View for Cell {
    type V = CellModel;

    open spec fn view(&self) -> CellModel {
        CellModel { n: self.n as nat, numbers: as_ints(self.numbers@) }
    }
}

impl DeepView for Cell {
    type V = CellModel;

    open spec fn deep_view(&self) -> CellModel {
        self@
    }
}

impl Clone for Cell {
    fn clone(&self) -> (r: Self)
        ensures
            r@ == self@,
            r.n == self.n,
            r.numbers@ == self.numbers@,
    {
        Cell { n: self.n, numbers: self.numbers.clone() }
    }
}

/// The vector `1, 2, .., n`.
fn heights_up_to(n: usize) -> (v: Vec<usize>)
    ensures
        as_ints(v@) == all_heights(n as nat),
{
    let mut v: Vec<usize> = Vec::new();
    let mut i: usize = 0;
    while i < n
        invariant
            i <= n,
            v@.len() == i,
            forall|j: int| 0 <= j < i ==> v@[j] == j + 1,
        decreases n - i,
    {
        v.push(i + 1);
        i += 1;
    }
    assert(as_ints(v@) =~= all_heights(n as nat));
    v
}

/// Whether `x` is an entry of `v`.
pub fn holds(v: &Vec<usize>, x: usize) -> (b: bool)
    ensures
        b == as_ints(v@).contains(x as int),
{
    let mut i: usize = 0;
    while i < v.len()
        invariant
            i <= v.len(),
            forall|j: int| 0 <= j < i ==> v@[j] != x,
        decreases v.len() - i,
    {
        if v[i] == x {
            assert(as_ints(v@)[i as int] == x as int);
            return true;
        }
        i += 1;
    }
    false
}

impl Cell {
    /// A cell with every height from 1 to `number`.
    pub fn new_cell(number: usize) -> (c: Cell)
        ensures
            c@ == CellModel::full(number as nat),
            number >= 1 ==> c@.valid(),
    {
        Cell { n: number, numbers: heights_up_to(number) }
    }

    /// A cell of a puzzle of side `number` with the given candidates, which are
    /// taken as they come.
    pub fn new_cell_fixed(number: usize, fixed_numbers: Vec<usize>) -> (c: Cell)
        ensures
            c@ == (CellModel { n: number as nat, numbers: as_ints(fixed_numbers@) }),
    {
        Cell { n: number, numbers: fixed_numbers }
    }

    /// Leaves `number` as the only candidate, if it is a height of the puzzle.
    pub fn replace_cell_with_number(&mut self, number: usize)
        ensures
            final(self)@ == old(self)@.restrict_to(number as int),
    {
        if number > 0 && number <= self.n {
            let mut one: Vec<usize> = Vec::new();
            one.push(number);
            self.numbers = one;
            assert(as_ints(self.numbers@) =~= seq![number as int]);
        }
    }

    /// Replaces the candidates by `numbers`, if that names at least one and at
    /// most `n` of them. The entries themselves are not looked at.
    pub fn replace_cell_with_vec(&mut self, numbers: &Vec<usize>)
        ensures
            final(self)@ == old(self)@.restrict_to_all(as_ints(numbers@)),
    {
        if numbers.len() > 0 && numbers.len() <= self.n {
            self.numbers = numbers.clone();
        }
    }

    /// Whether every entry of `numbers` is a candidate.
    pub fn contains_numbers(&self, numbers: &Vec<usize>) -> (b: bool)
        ensures
            b == self@.contains_all(as_ints(numbers@)),
    {
        let mut i: usize = 0;
        while i < numbers.len()
            invariant
                i <= numbers.len(),
                forall|j: int|
                    0 <= j < i ==> as_ints(self.numbers@).contains(#[trigger] as_ints(numbers@)[j]),
            decreases numbers.len() - i,
        {
            if !holds(&self.numbers, numbers[i]) {
                assert(as_ints(numbers@)[i as int] == numbers@[i as int] as int);
                return false;
            }
            i += 1;
        }
        true
    }

    /// Makes every height of the puzzle a candidate again.
    pub fn restore(&mut self)
        ensures
            final(self)@ == CellModel::full(old(self)@.n),
    {
        self.numbers = heights_up_to(self.n);
    }

    /// Takes `number` away, unless it is the last candidate left.
    pub fn remove_number(&mut self, number: usize)
        ensures
            final(self)@ == old(self)@.remove(number as int),
            final(self)@.n == old(self)@.n,
            old(self)@.solved() ==> final(self)@ == old(self)@,
            old(self)@.valid() ==> final(self)@.valid(),
    {
        proof {
            lemma_remove(self@, number as int);
            if self@.valid() {
                lemma_remove_valid(self@, number as int);
            }
        }
        if self.numbers.len() > 1 && holds(&self.numbers, number) {
            let ghost p = other_than(number as int);
            let mut kept: Vec<usize> = Vec::new();
            let mut i: usize = 0;
            while i < self.numbers.len()
                invariant
                    i <= self.numbers.len(),
                    p == other_than(number as int),
                    as_ints(kept@) == as_ints(self.numbers@.take(i as int)).filter(p),
                decreases self.numbers.len() - i,
            {
                let x = self.numbers[i];
                proof {
                    let before = as_ints(self.numbers@.take(i as int));
                    assert(as_ints(self.numbers@.take(i + 1)) =~= before.push(x as int));
                    before.lemma_filter_push(x as int, p);
                }
                let ghost so_far = as_ints(kept@);
                if x != number {
                    kept.push(x);
                    assert(as_ints(kept@) =~= so_far.push(x as int));
                }
                i += 1;
            }
            assert(self.numbers@.take(i as int) =~= self.numbers@);
            self.numbers = kept;
        }
    }

    /// Takes each entry of `numbers` away in turn, first entry first, never the
    /// last candidate left.
    pub fn remove_vec(&mut self, numbers: &Vec<usize>)
        ensures
            final(self)@ == old(self)@.remove_all(as_ints(numbers@)),
            final(self)@.n == old(self)@.n,
            old(self)@.valid() ==> final(self)@.valid(),
    {
        let mut i: usize = 0;
        while i < numbers.len()
            invariant
                i <= numbers.len(),
                self@ == old(self)@.remove_all(as_ints(numbers@.take(i as int))),
                self@.n == old(self)@.n,
                old(self)@.valid() ==> self@.valid(),
            decreases numbers.len() - i,
        {
            proof {
                let upto = as_ints(numbers@.take(i + 1));
                assert(upto.drop_last() =~= as_ints(numbers@.take(i as int)));
                assert(upto.last() == numbers@[i as int] as int);
            }
            self.remove_number(numbers[i]);
            i += 1;
        }
        assert(numbers@.take(i as int) =~= numbers@);
    }

    /// Whether the cell is a valid cell of its puzzle: it has a candidate, and
    /// its candidates are heights of the puzzle in ascending order.
    pub fn is_valid(&self) -> (b: bool)
        ensures
            b == self@.valid(),
    {
        if self.numbers.len() == 0 {
            return false;
        }
        let mut i: usize = 0;
        while i < self.numbers.len()
            invariant
                i <= self.numbers.len(),
                forall|j: int| 0 <= j < i ==> 1 <= #[trigger] self@.numbers[j] <= self@.n,
                forall|j: int| 0 < j < i ==> self.numbers@[j - 1] < #[trigger] self.numbers@[j],
            decreases self.numbers.len() - i,
        {
            let x = self.numbers[i];
            if x < 1 || x > self.n {
                assert(!(1 <= self@.numbers[i as int] <= self@.n));
                return false;
            }
            if i > 0 && self.numbers[i - 1] >= x {
                assert(!(self@.numbers[i - 1] < self@.numbers[i as int]));
                return false;
            }
            i += 1;
        }
        proof {
            let s = self@.numbers;
            assert forall|a: int, b: int| 0 <= a < b < s.len() implies s[a] < s[b] by {
                lemma_steps_ascend(self.numbers@, a, b);
            }
        }
        true
    }

    /// Whether both cells belong to puzzles of the same side and hold the same
    /// candidates.
    pub fn same_as(&self, other: &Cell) -> (b: bool)
        ensures
            b == (self@ == other@),
    {
        if self.n != other.n || self.numbers.len() != other.numbers.len() {
            assert(self@.numbers.len() != other@.numbers.len() || self@.n != other@.n);
            return false;
        }
        let mut i: usize = 0;
        while i < self.numbers.len()
            invariant
                i <= self.numbers.len(),
                self.numbers.len() == other.numbers.len(),
                forall|j: int| 0 <= j < i ==> self.numbers@[j] == other.numbers@[j],
            decreases self.numbers.len() - i,
        {
            if self.numbers[i] != other.numbers[i] {
                assert(self@.numbers[i as int] != other@.numbers[i as int]);
                return false;
            }
            i += 1;
        }
        assert(self@.numbers =~= other@.numbers);
        true
    }
}

} // verus!
