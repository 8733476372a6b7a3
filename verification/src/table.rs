//! The minimal compare-and-swap storage port beneath the book, and an
//! in-memory table.
use vstd::prelude::*;

verus! {

/// The key of a table cell.
#[derive(Debug, Eq, Hash, PartialOrd, Ord)]
pub struct Key(pub String);

impl View for Key {
    type V = Seq<char>;

    open spec fn view(&self) -> Seq<char> {
        self.0@
    }
}

impl Clone for Key {
    fn clone(&self) -> (r: Self)
        ensures
            r == *self,
    {
        Key(self.0.clone())
    }
}

impl PartialEq for Key {
    fn eq(&self, other: &Self) -> (r: bool) {
        self.0 == other.0
    }
}

impl vstd::std_specs::cmp::PartialEqSpecImpl for Key {
    open spec fn obeys_eq_spec() -> bool {
        true
    }

    open spec fn eq_spec(&self, other: &Key) -> bool {
        self@ == other@
    }
}

/// Why a book or table operation did not happen.
#[derive(Debug, Eq, PartialEq)]
pub enum BookError {
    /// The cell under `key` did not hold what the operation expected;
    /// `observed` is what it held.
    Conflict { key: Key, observed: Option<Vec<u8>> },
    /// The storage behind the table failed.
    Storage(String),
    /// The cell under `key` holds bytes that are not the record it should hold.
    Corrupt { key: Key },
    /// No cell under `key`, where a record was required.
    Missing { key: Key },
}

/// The view of an optional cell value.
pub open spec fn bytes_view(v: Option<Vec<u8>>) -> Option<Seq<u8>> {
    match v {
        Some(b) => Some(b@),
        None => None,
    }
}

/// The view of an optional slice.
pub open spec fn slice_view(v: Option<&[u8]>) -> Option<Seq<u8>> {
    match v {
        Some(b) => Some(b@),
        None => None,
    }
}

/// What the cell under `k` holds, if anything.
pub open spec fn cell(cells: Map<Seq<char>, Seq<u8>>, k: Seq<char>) -> Option<Seq<u8>> {
    if cells.contains_key(k) {
        Some(cells[k])
    } else {
        None
    }
}

/// The cell under `k` is empty or already holds `v`.
pub open spec fn absent_or_same(cells: Map<Seq<char>, Seq<u8>>, k: Seq<char>, v: Seq<u8>) -> bool {
    cells.contains_key(k) ==> cells[k] == v
}

/// A key/value table with atomic put-if-absent and compare-and-swap.
/// `cells` is what the table holds as this handle observes it; a table that
/// is `reliable` never fails for storage reasons.
pub trait Table {
    spec fn cells(&self) -> Map<Seq<char>, Seq<u8>>;

    spec fn reliable(&self) -> bool;

    /// What the cell under `key` holds.
    fn get(&self, key: &Key) -> (r: Result<Option<Vec<u8>>, BookError>)
        ensures
            r matches Ok(v) ==> bytes_view(v) == cell(self.cells(), key@),
            r matches Err(e) ==> e is Storage && !self.reliable(),
    ;

    /// Stores `value` under `key` where the cell is empty; succeeds without a
    /// change where it already holds `value`; refuses otherwise.
    fn put_absent(&mut self, key: &Key, value: &[u8]) -> (r: Result<(), BookError>)
        ensures
            final(self).reliable() == old(self).reliable(),
            r is Ok ==> absent_or_same(old(self).cells(), key@, value@),
            r is Ok ==> final(self).cells() == old(self).cells().insert(key@, value@),
            r matches Err(BookError::Conflict { key: k, observed }) ==> {
                &&& k@ == key@
                &&& !absent_or_same(old(self).cells(), key@, value@)
                &&& bytes_view(observed) == cell(old(self).cells(), key@)
                &&& final(self).cells() == old(self).cells()
            },
            r matches Err(e) ==> e is Conflict || (e is Storage && !old(self).reliable()),
            old(self).reliable() ==> (r is Ok <==> absent_or_same(old(self).cells(), key@, value@)),
    ;

    /// Stores `value` under `key` where the cell holds `expected` (nothing,
    /// for `None`); refuses otherwise.
    fn compare_and_swap(&mut self, key: &Key, expected: Option<&[u8]>, value: &[u8]) -> (r: Result<(), BookError>)
        ensures
            final(self).reliable() == old(self).reliable(),
            r is Ok ==> cell(old(self).cells(), key@) == slice_view(expected),
            r is Ok ==> final(self).cells() == old(self).cells().insert(key@, value@),
            r matches Err(BookError::Conflict { key: k, observed }) ==> {
                &&& k@ == key@
                &&& cell(old(self).cells(), key@) != slice_view(expected)
                &&& bytes_view(observed) == cell(old(self).cells(), key@)
                &&& final(self).cells() == old(self).cells()
            },
            r matches Err(e) ==> e is Conflict || (e is Storage && !old(self).reliable()),
            old(self).reliable() ==> (r is Ok <==> cell(old(self).cells(), key@) == slice_view(expected)),
    ;

    /// The cells whose key starts with `prefix`.
    fn scan_prefix(&self, prefix: &str) -> (r: Result<Vec<(Key, Vec<u8>)>, BookError>)
        ensures
            r matches Ok(v) ==> {
                &&& forall|i: int| 0 <= i < v@.len() ==> {
                    &&& prefix@.is_prefix_of((#[trigger] v@[i]).0@)
                    &&& cell(self.cells(), v@[i].0@) == Some(v@[i].1@)
                }
                &&& forall|k: Seq<char>| #[trigger] self.cells().contains_key(k) && prefix@.is_prefix_of(k)
                    ==> exists|i: int| 0 <= i < v@.len() && (#[trigger] v@[i]).0@ == k
            },
            r matches Err(e) ==> e is Storage && !self.reliable(),
    ;
}

/// The cells that a log of writes leaves: later writes win.
pub open spec fn cells_of(e: Seq<(Key, Vec<u8>)>) -> Map<Seq<char>, Seq<u8>>
    decreases e.len(),
{
    if e.len() == 0 {
        Map::empty()
    } else {
        cells_of(e.drop_last()).insert(e.last().0@, e.last().1@)
    }
}

/// No write after position `i` is under key text `k`.
pub open spec fn last_write(e: Seq<(Key, Vec<u8>)>, i: int, k: Seq<char>) -> bool {
    forall|j: int| i < j < e.len() ==> (#[trigger] e[j]).0@ != k
}

pub proof fn lemma_cells_of_absent(e: Seq<(Key, Vec<u8>)>, k: Seq<char>)
    requires
        forall|j: int| 0 <= j < e.len() ==> (#[trigger] e[j]).0@ != k,
    ensures
        !cells_of(e).contains_key(k),
    decreases e.len(),
{
    if e.len() > 0 {
        assert(e.last() == e[e.len() - 1]);
        lemma_cells_of_absent(e.drop_last(), k);
    }
}

pub proof fn lemma_cells_of_last(e: Seq<(Key, Vec<u8>)>, i: int, k: Seq<char>)
    requires
        0 <= i < e.len(),
        e[i].0@ == k,
        last_write(e, i, k),
    ensures
        cells_of(e).contains_key(k),
        cells_of(e)[k] == e[i].1@,
    decreases e.len(),
{
    if i < e.len() - 1 {
        assert(e.last() == e[e.len() - 1]);
        lemma_cells_of_last(e.drop_last(), i, k);
    }
}

/// A table held in memory. It never fails for storage reasons.
pub struct MemoryTable {
    entries: Vec<(Key, Vec<u8>)>,
}

impl MemoryTable {
    /// An empty table.
    pub fn new() -> (r: Self)
        ensures
            r.cells() == Map::<Seq<char>, Seq<u8>>::empty(),
            r.reliable(),
    {
        MemoryTable { entries: Vec::new() }
    }

    /// The position of the latest write under `key`.
    fn find(&self, key: &Key) -> (r: Option<usize>)
        ensures
            match r {
                Some(i) => i < self.entries@.len() && self.entries@[i as int].0@ == key@
                    && last_write(self.entries@, i as int, key@),
                None => forall|j: int| 0 <= j < self.entries@.len() ==> (#[trigger] self.entries@[j]).0@ != key@,
            },
    {
        let mut i: usize = self.entries.len();
        while i > 0
            invariant
                i <= self.entries@.len(),
                last_write(self.entries@, i as int - 1, key@),
            decreases i,
        {
            if self.entries[i - 1].0.0 == key.0 {
                return Some(i - 1);
            }
            i = i - 1;
        }
        None
    }

    fn lookup(&self, key: &Key) -> (r: Option<Vec<u8>>)
        ensures
            bytes_view(r) == cell(self.cells(), key@),
    {
        match self.find(key) {
            Some(i) => {
                proof {
                    lemma_cells_of_last(self.entries@, i as int, key@);
                }
                Some(self.entries[i].1.clone())
            },
            None => {
                proof {
                    lemma_cells_of_absent(self.entries@, key@);
                }
                None
            },
        }
    }

    fn write(&mut self, key: &Key, value: &[u8])
        ensures
            final(self).cells() == old(self).cells().insert(key@, value@),
    {
        let mut v: Vec<u8> = Vec::new();
        let mut i: usize = 0;
        while i < value.len()
            invariant
                i <= value@.len(),
                v@ == value@.take(i as int),
            decreases value.len() - i,
        {
            v.push(value[i]);
            proof {
                assert(value@.take(i + 1) =~= value@.take(i as int).push(value@[i as int]));
            }
            i = i + 1;
        }
        assert(value@.take(value@.len() as int) =~= value@);
        let ghost before = self.entries@;
        self.entries.push((key.clone(), v));
        assert(self.entries@.drop_last() == before);
    }
}

fn same_bytes(a: &Vec<u8>, b: &[u8]) -> (r: bool)
    ensures
        r == (a@ == b@),
{
    if a.len() != b.len() {
        return false;
    }
    let mut i: usize = 0;
    while i < a.len()
        invariant
            a@.len() == b@.len(),
            i <= a@.len(),
            forall|j: int| 0 <= j < i ==> a@[j] == b@[j],
        decreases a.len() - i,
    {
        if a[i] != b[i] {
            return false;
        }
        i = i + 1;
    }
    assert(a@ =~= b@);
    true
}

fn has_prefix(prefix: &Vec<char>, k: &Vec<char>) -> (r: bool)
    ensures
        r == prefix@.is_prefix_of(k@),
{
    if prefix.len() > k.len() {
        return false;
    }
    let mut i: usize = 0;
    while i < prefix.len()
        invariant
            prefix@.len() <= k@.len(),
            i <= prefix@.len(),
            forall|j: int| 0 <= j < i ==> prefix@[j] == k@[j],
        decreases prefix.len() - i,
    {
        if prefix[i] != k[i] {
            return false;
        }
        i = i + 1;
    }
    assert(prefix@ =~= k@.take(prefix@.len() as int));
    true
}

impl Table for MemoryTable {
    closed spec fn cells(&self) -> Map<Seq<char>, Seq<u8>> {
        cells_of(self.entries@)
    }

    closed spec fn reliable(&self) -> bool {
        true
    }

    fn get(&self, key: &Key) -> (r: Result<Option<Vec<u8>>, BookError>) {
        Ok(self.lookup(key))
    }

    fn put_absent(&mut self, key: &Key, value: &[u8]) -> (r: Result<(), BookError>) {
        match self.lookup(key) {
            Some(v) => {
                if same_bytes(&v, value) {
                    proof {
                        assert(old(self).cells().insert(key@, value@) =~= old(self).cells());
                    }
                    Ok(())
                } else {
                    Err(BookError::Conflict { key: key.clone(), observed: Some(v) })
                }
            },
            None => {
                self.write(key, value);
                Ok(())
            },
        }
    }

    fn compare_and_swap(&mut self, key: &Key, expected: Option<&[u8]>, value: &[u8]) -> (r: Result<(), BookError>) {
        let observed = self.lookup(key);
        let matches = match (&observed, expected) {
            (Some(o), Some(e)) => same_bytes(o, e),
            (None, None) => true,
            _ => false,
        };
        if matches {
            self.write(key, value);
            Ok(())
        } else {
            Err(BookError::Conflict { key: key.clone(), observed })
        }
    }

    fn scan_prefix(&self, prefix: &str) -> (r: Result<Vec<(Key, Vec<u8>)>, BookError>) {
        let p = crate::text::chars_of(prefix);
        let mut out: Vec<(Key, Vec<u8>)> = Vec::new();
        let mut i: usize = 0;
        while i < self.entries.len()
            invariant
                i <= self.entries@.len(),
                p@ == prefix@,
                forall|x: int| 0 <= x < out@.len() ==> {
                    &&& prefix@.is_prefix_of((#[trigger] out@[x]).0@)
                    &&& cell(self.cells(), out@[x].0@) == Some(out@[x].1@)
                },
                forall|j: int| 0 <= j < i && prefix@.is_prefix_of((#[trigger] self.entries@[j]).0@)
                    && last_write(self.entries@, j, self.entries@[j].0@)
                    ==> exists|x: int| 0 <= x < out@.len() && (#[trigger] out@[x]).0@ == self.entries@[j].0@,
            decreases self.entries.len() - i,
        {
            let k = crate::text::chars_of(self.entries[i].0.0.as_str());
            if has_prefix(&p, &k) {
                match self.find(&self.entries[i].0) {
                    Some(last) => {
                        if last == i {
                            proof {
                                lemma_cells_of_last(self.entries@, i as int, self.entries@[i as int].0@);
                            }
                            let ghost before = out@;
                            out.push((self.entries[i].0.clone(), self.entries[i].1.clone()));
                            assert(out@[out@.len() - 1].0@ == self.entries@[i as int].0@);
                            assert(forall|x: int| 0 <= x < before.len() ==> out@[x] == before[x]);
                        } else {
                            assert(self.entries@[last as int].0@ == self.entries@[i as int].0@);
                            assert(!last_write(self.entries@, i as int, self.entries@[i as int].0@)) by {
                                if last > i {
                                } else {
                                    assert(last < i);
                                }
                            }
                        }
                    },
                    None => {
                        assert(self.entries@[i as int].0@ == self.entries@[i as int].0@);
                    },
                }
            }
            i = i + 1;
        }
        proof {
            assert forall|k: Seq<char>| #[trigger] self.cells().contains_key(k) && prefix@.is_prefix_of(k)
                implies exists|x: int| 0 <= x < out@.len() && (#[trigger] out@[x]).0@ == k by {
                if forall|j: int| 0 <= j < self.entries@.len() ==> (#[trigger] self.entries@[j]).0@ != k {
                    lemma_cells_of_absent(self.entries@, k);
                }
                let j = choose|j: int| 0 <= j < self.entries@.len() && (#[trigger] self.entries@[j]).0@ == k;
                let last = lemma_last_index(self.entries@, j, k);
                assert(self.entries@[last].0@ == k);
            }
        }
        Ok(out)
    }
}

/// Some write under `k` is the last one.
proof fn lemma_last_index(e: Seq<(Key, Vec<u8>)>, j: int, k: Seq<char>) -> (last: int)
    requires
        0 <= j < e.len(),
        e[j].0@ == k,
    ensures
        0 <= last < e.len(),
        e[last].0@ == k,
        last_write(e, last, k),
    decreases e.len() - j,
{
    if last_write(e, j, k) {
        j
    } else {
        let j2 = choose|j2: int| j < j2 < e.len() && (#[trigger] e[j2]).0@ == k;
        lemma_last_index(e, j2, k)
    }
}

impl Default for MemoryTable {
    fn default() -> (r: Self)
        ensures
            r.cells() == Map::<Seq<char>, Seq<u8>>::empty(),
            r.reliable(),
    {
        MemoryTable::new()
    }
}

} // verus!
