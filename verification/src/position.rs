//! Line tables and the resolution of byte offsets to line and column.

use vstd::prelude::*;

verus! {

/// A place in a source file. `line` counts from 1: it is the number of lines
/// that start at or before the offset. `column` counts bytes from the start
/// of that line, from 0.
#[derive(Clone, Copy, Debug, PartialEq, Eq, Structural)]
pub struct Position {
    pub line: usize,
    pub column: usize,
}

/// What makes a sequence of byte offsets a line table: the first line starts
/// at offset 0 and every later line starts after the one before it.
pub open spec fn line_starts_ok(starts: Seq<usize>) -> bool {
    &&& starts.len() > 0
    &&& starts[0] == 0
    &&& forall|i: int, j: int| 0 <= i < j < starts.len() ==> starts[i] < starts[j]
}

/// The number of entries of `starts` that are at or before `offset`.
pub open spec fn starts_up_to(starts: Seq<usize>, offset: usize) -> nat
    decreases starts.len(),
{
    if starts.len() == 0 {
        0
    } else {
        let rest = starts_up_to(starts.drop_last(), offset);
        if starts.last() <= offset {
            rest + 1
        } else {
            rest
        }
    }
}

/// In an increasing sequence the entries at or before `offset` are a prefix:
/// if entry `k` is the last of them, there are `k + 1`.
pub proof fn lemma_starts_up_to(starts: Seq<usize>, offset: usize, k: int)
    requires
        forall|i: int, j: int| 0 <= i < j < starts.len() ==> starts[i] < starts[j],
        0 <= k < starts.len(),
        starts[k] <= offset,
        k + 1 < starts.len() ==> offset < starts[k + 1],
    ensures
        starts_up_to(starts, offset) == k + 1,
    decreases starts.len(),
{
    let front = starts.drop_last();
    if k + 1 == starts.len() {
        lemma_starts_up_to_all(front, offset);
    } else {
        assert(starts.last() > offset) by {
            if k + 1 < starts.len() - 1 {
                assert(starts[k + 1] < starts[starts.len() - 1]);
            }
        }
        assert(front[k] == starts[k]);
        if k + 1 < front.len() {
            assert(front[k + 1] == starts[k + 1]);
        }
        lemma_starts_up_to(front, offset, k);
    }
}

/// Where every entry is at or before `offset`, all of them are counted.
pub proof fn lemma_starts_up_to_all(starts: Seq<usize>, offset: usize)
    requires
        forall|i: int| 0 <= i < starts.len() ==> starts[i] <= offset,
    ensures
        starts_up_to(starts, offset) == starts.len(),
    decreases starts.len(),
{
    if starts.len() > 0 {
        let front = starts.drop_last();
        assert forall|i: int| 0 <= i < front.len() implies front[i] <= offset by {
            assert(front[i] == starts[i]);
        }
        lemma_starts_up_to_all(front, offset);
    }
}

/// The byte offsets at which the lines of one file start.
#[derive(Debug)]
pub struct LineTable {
    starts: Vec<usize>,
}

impl View for LineTable {
    type V = Seq<usize>;

    closed spec fn view(&self) -> Seq<usize> {
        self.starts@
    }
}

impl LineTable {
    #[verifier::type_invariant]
    closed spec fn well_formed(&self) -> bool {
        line_starts_ok(self.starts@)
    }

    /// Makes a line table of `starts`, if the offsets begin at 0 and increase.
    pub fn new(starts: Vec<usize>) -> (table: Option<LineTable>)
        ensures
            table is Some <==> line_starts_ok(starts@),
            table matches Some(t) ==> t@ == starts@,
    {
        if starts.len() == 0 || starts[0] != 0 {
            return None;
        }
        let mut i: usize = 1;
        while i < starts.len()
            invariant
                1 <= i <= starts.len(),
                starts[0] == 0,
                forall|a: int, b: int| 0 <= a < b < i ==> starts[a] < starts[b],
            decreases starts.len() - i,
        {
            if starts[i - 1] >= starts[i] {
                return None;
            }
            assert forall|a: int, b: int| 0 <= a < b < i + 1 implies starts[a] < starts[b] by {
                if b == i && a < i - 1 {
                    assert(starts[a] < starts[i - 1]);
                }
            }
            i = i + 1;
        }
        Some(LineTable { starts })
    }

    /// The number of lines.
    pub fn len(&self) -> (n: usize)
        ensures
            n == self@.len(),
            line_starts_ok(self@),
    {
        proof {
            use_type_invariant(self);
        }
        self.starts.len()
    }

    /// The offset at which line `line` starts, lines counted from 1.
    pub fn line_start(&self, line: usize) -> (start: Option<usize>)
        ensures
            start == if 1 <= line <= self@.len() {
                Some(self@[line - 1])
            } else {
                None
            },
    {
        if 1 <= line && line <= self.starts.len() {
            Some(self.starts[line - 1])
        } else {
            None
        }
    }

    /// The line and column of the byte at `offset`, found by bisection: the
    /// line is the last one that starts at or before `offset`, the column is
    /// the distance from that start.
    pub fn resolve(&self, offset: usize) -> (p: Position)
        ensures
            line_starts_ok(self@),
            p == position_in(self@, offset),
            p.line == starts_up_to(self@, offset),
            1 <= p.line <= self@.len(),
            self@[p.line - 1] <= offset,
            p.line < self@.len() ==> offset < self@[p.line as int],
            p.column == offset - self@[p.line - 1],
    {
        proof {
            use_type_invariant(self);
        }
        let mut low: usize = 0;
        let mut high: usize = self.starts.len();
        while high - low > 1
            invariant
                line_starts_ok(self.starts@),
                0 <= low < high <= self.starts.len(),
                self.starts[low as int] <= offset,
                high < self.starts.len() ==> offset < self.starts[high as int],
            decreases high - low,
        {
            let mid: usize = low + (high - low) / 2;
            if self.starts[mid] <= offset {
                low = mid;
            } else {
                high = mid;
            }
        }
        proof {
            lemma_starts_up_to(self.starts@, offset, low as int);
        }
        Position { line: low + 1, column: offset - self.starts[low] }
    }
}

/// A position names one offset. The line of an offset is the number of line
/// starts at or before it, which is the one line whose bytes hold the offset,
/// and the start of that line plus the column is the offset again.
pub proof fn lemma_resolve_round_trip(starts: Seq<usize>, offset: usize)
    requires
        line_starts_ok(starts),
        starts.len() <= usize::MAX,
    ensures
        position_in(starts, offset).line == starts_up_to(starts, offset),
        1 <= position_in(starts, offset).line <= starts.len(),
        starts[position_in(starts, offset).line - 1] <= offset,
        position_in(starts, offset).line < starts.len() ==> offset < starts[position_in(
            starts,
            offset,
        ).line as int],
        starts[position_in(starts, offset).line - 1] + position_in(starts, offset).column
            == offset,
{
    let k = last_start(starts, offset, starts.len() as int);
    lemma_starts_up_to(starts, offset, k);
}

/// Two offsets with the same position in a file are the same offset.
pub proof fn lemma_position_names_one_offset(starts: Seq<usize>, first: usize, second: usize)
    requires
        line_starts_ok(starts),
        starts.len() <= usize::MAX,
        position_in(starts, first) == position_in(starts, second),
    ensures
        first == second,
{
    lemma_resolve_round_trip(starts, first);
    lemma_resolve_round_trip(starts, second);
}

/// The index of the last of the first `n` entries that is at or before
/// `offset`.
proof fn last_start(starts: Seq<usize>, offset: usize, n: int) -> (k: int)
    requires
        line_starts_ok(starts),
        1 <= n <= starts.len(),
    ensures
        0 <= k < n,
        starts[k] <= offset,
        k + 1 < n ==> offset < starts[k + 1],
    decreases n,
{
    if starts[n - 1] <= offset {
        n - 1
    } else {
        last_start(starts, offset, n - 1)
    }
}

/// One file's line table under the path by which artifacts name the file.
#[derive(Debug)]
pub struct SourceEntry {
    pub path: String,
    pub lines: LineTable,
}

/// The line tables of a run, by absolute path.
#[derive(Debug)]
pub struct SourceMap {
    entries: Vec<SourceEntry>,
}

/// The index of the entry for `path` among `entries`, where there is one.
pub closed spec fn entry_of(entries: Seq<SourceEntry>, path: Seq<char>) -> int {
    choose|i: int| 0 <= i < entries.len() && entries[i].path@ == path
}

impl View for SourceMap {
    type V = Map<Seq<char>, Seq<usize>>;

    closed spec fn view(&self) -> Map<Seq<char>, Seq<usize>> {
        Map::new(
            |path: Seq<char>|
                exists|i: int| 0 <= i < self.entries@.len() && self.entries@[i].path@ == path,
            |path: Seq<char>| self.entries@[entry_of(self.entries@, path)].lines@,
        )
    }
}

impl SourceMap {
    #[verifier::type_invariant]
    closed spec fn well_formed(&self) -> bool {
        forall|i: int, j: int|
            0 <= i < j < self.entries@.len() ==> self.entries@[i].path@ != self.entries@[j].path@
    }

    /// A source map without entries.
    pub fn new() -> (map: SourceMap)
        ensures
            map@ == Map::<Seq<char>, Seq<usize>>::empty(),
    {
        let map = SourceMap { entries: Vec::new() };
        assert(map@ =~= Map::<Seq<char>, Seq<usize>>::empty());
        map
    }

    /// Files `lines` under `path`, in place of what stood there before.
    pub fn insert(&mut self, path: String, lines: LineTable)
        ensures
            final(self)@ == old(self)@.insert(path@, lines@),
    {
        let mut taken = SourceMap { entries: Vec::new() };
        core::mem::swap(self, &mut taken);
        proof {
            use_type_invariant(&taken);
        }
        let mut entries = taken.entries;
        let ghost before = entries@;
        let ghost key = path@;
        let ghost table = lines@;
        let mut i: usize = 0;
        let mut found: bool = false;
        while i < entries.len() && !found
            invariant
                entries@ == before,
                0 <= i <= before.len(),
                found ==> i < before.len() && before[i as int].path@ == key,
                forall|k: int| 0 <= k < i ==> before[k].path@ != key,
                path@ == key,
            decreases before.len() - i + if found { 0int } else { 1int },
        {
            if entries[i].path == path {
                found = true;
            } else {
                i = i + 1;
            }
        }
        if found {
            entries[i] = SourceEntry { path, lines };
        } else {
            entries.push(SourceEntry { path, lines });
        }
        proof {
            let after = entries@;
            let at = i as int;
            assert(after.len() == if found { before.len() } else { before.len() + 1 });
            assert(after[at].path@ == key && after[at].lines@ == table);
            assert forall|k: int| 0 <= k < before.len() && k != at implies after[k]
                == before[k] by {}
            assert forall|a: int, b: int| 0 <= a < b < after.len() implies after[a].path@
                != after[b].path@ by {
                if a != at && b != at {
                    assert(before[a].path@ != before[b].path@);
                } else if a == at && found {
                    assert(before[a].path@ != before[b].path@);
                } else if b == at && found {
                    assert(before[a].path@ != before[b].path@);
                }
            }
        }
        *self = SourceMap { entries };
        proof {
            let after = self.entries@;
            let at = i as int;
            let goal = old(self)@.insert(key, table);
            assert forall|q: Seq<char>| self@.dom().contains(q) <==> goal.dom().contains(q) by {
                if self@.dom().contains(q) {
                    let k = choose|k: int| 0 <= k < after.len() && after[k].path@ == q;
                    if k != at {
                        assert(before[k].path@ == q);
                    }
                }
                if q == key {
                    assert(after[at].path@ == q);
                } else if old(self)@.dom().contains(q) {
                    let k = choose|k: int| 0 <= k < before.len() && before[k].path@ == q;
                    assert(after[k].path@ == q);
                }
            }
            assert forall|q: Seq<char>| self@.dom().contains(q) implies self@[q] == goal[q] by {
                let k = entry_of(after, q);
                assert(after[k].path@ == q);
                if q == key {
                    assert(k == at);
                } else {
                    assert(before[k].path@ == q);
                    let m = entry_of(before, q);
                    assert(m == k);
                }
            }
            assert(self@ =~= goal);
        }
    }

    /// The line table filed under `path`.
    pub fn get(&self, path: &String) -> (lines: Option<&LineTable>)
        ensures
            lines is Some <==> self@.dom().contains(path@),
            lines matches Some(t) ==> t@ == self@[path@],
    {
        proof {
            use_type_invariant(self);
        }
        let mut i: usize = 0;
        while i < self.entries.len()
            invariant
                0 <= i <= self.entries@.len(),
                forall|k: int| 0 <= k < i ==> self.entries@[k].path@ != path@,
                forall|a: int, b: int|
                    0 <= a < b < self.entries@.len() ==> self.entries@[a].path@
                        != self.entries@[b].path@,
            decreases self.entries@.len() - i,
        {
            if self.entries[i].path == *path {
                proof {
                    assert(self.entries@[i as int].path@ == path@);
                    let k = entry_of(self.entries@, path@);
                    assert(self.entries@[k].path@ == path@);
                    assert(k == i);
                }
                return Some(&self.entries[i].lines);
            }
            i = i + 1;
        }
        None
    }

    /// The line and column of the byte at `offset` in the file at `path`;
    /// `None` says that no line table is filed under `path`.
    pub fn resolve(&self, path: &String, offset: usize) -> (p: Option<Position>)
        ensures
            p is Some <==> self@.dom().contains(path@),
            p matches Some(at) ==> position_in(self@[path@], offset) == at,
    {
        match self.get(path) {
            Some(lines) => Some(lines.resolve(offset)),
            None => None,
        }
    }
}

/// The position of `offset` in a file whose lines start at `starts`.
pub open spec fn position_in(starts: Seq<usize>, offset: usize) -> Position
    recommends
        line_starts_ok(starts),
{
    let line = starts_up_to(starts, offset);
    Position { line: line as usize, column: (offset - starts[line - 1]) as usize }
}

} // verus!
