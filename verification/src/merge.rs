//! Bringing the workers' tables together, in name order.

use crate::feed::counts_fit;
use crate::inline_table::lemma_shape;
use crate::inline_table::InlineTable;
use crate::output::entries_text;
use crate::output::entry_text;
use crate::output::has_mean;
use crate::output::results_text;
use crate::output::single;
use crate::output::write_results;
use crate::output::Stats;
use crate::output::Summary;
use crate::probing::compact;
use crate::probing::distinct;
use crate::probing::held;
use crate::probing::lemma_compact;
use crate::probing::lemma_compact_covers;
use crate::probing::lemma_compact_distinct;
use crate::probing::lemma_note_all;
use crate::probing::lemma_note_all_others;
use crate::probing::note_all;
use crate::probing::Cell;
use crate::probing::Cells;
use crate::rows::joined;
use crate::rows::modest;
use crate::rows::noted;
use crate::rows::Tally;
use crate::table::lemma_wf;
use crate::table::Table;
use vstd::prelude::*;

verus! {

/// Byte order: the first difference decides, and a prefix comes first.
pub open spec fn before(a: Seq<u8>, b: Seq<u8>) -> bool
    decreases a.len(),
{
    if b.len() == 0 {
        false
    } else if a.len() == 0 {
        true
    } else {
        a[0] < b[0] || a[0] == b[0] && before(a.drop_first(), b.drop_first())
    }
}

/// Byte order is total: of two names, one comes first or they are the same.
pub proof fn law_order_is_total(a: Seq<u8>, b: Seq<u8>)
    ensures
        before(a, b) || before(b, a) || a == b,
        !(before(a, b) && before(b, a)),
        !before(a, a),
    decreases a.len(),
{
    if a.len() > 0 && b.len() > 0 {
        law_order_is_total(a.drop_first(), b.drop_first());
        if a[0] == b[0] && a.drop_first() == b.drop_first() {
            assert(a =~= seq![a[0]] + a.drop_first());
            assert(b =~= seq![b[0]] + b.drop_first());
        }
    } else if a.len() == 0 && b.len() == 0 {
        assert(a =~= b);
    }
    if a.len() > 0 {
        law_order_is_total(a.drop_first(), a.drop_first());
    }
}

/// Byte order is transitive.
pub proof fn law_order_is_transitive(a: Seq<u8>, b: Seq<u8>, c: Seq<u8>)
    requires
        before(a, b),
        before(b, c),
    ensures
        before(a, c),
    decreases a.len(),
{
    if a.len() > 0 {
        if a[0] == b[0] && b[0] == c[0] {
            law_order_is_transitive(a.drop_first(), b.drop_first(), c.drop_first());
        }
    }
}

/// **The order is that of raw bytes.** A name comes before another just where it is a proper prefix
/// of it, or where at the first place at which they differ its byte is the smaller number.
pub proof fn law_order_is_of_raw_bytes(a: Seq<u8>, b: Seq<u8>)
    ensures
        before(a, b) <==> {
            ||| a.len() < b.len() && forall|i: int| 0 <= i < a.len() ==> #[trigger] a[i] == b[i]
            ||| exists|k: int|
                0 <= k < a.len() && k < b.len() && #[trigger] a[k] < b[k] && forall|i: int|
                    0 <= i < k ==> #[trigger] a[i] == b[i]
        },
    decreases a.len(),
{
    if a.len() > 0 && b.len() > 0 {
        let (x, y) = (a.drop_first(), b.drop_first());
        law_order_is_of_raw_bytes(x, y);
        if before(a, b) {
            if a[0] < b[0] {
                assert(0 <= 0 < a.len() && 0 < b.len() && a[0] < b[0]);
            } else if x.len() < y.len() && forall|i: int|
                0 <= i < x.len() ==> #[trigger] x[i] == y[i] {
                assert forall|i: int| 0 <= i < a.len() implies #[trigger] a[i] == b[i] by {
                    if i > 0 {
                        assert(x[i - 1] == y[i - 1]);
                    }
                }
            } else {
                let k = choose|k: int|
                    0 <= k < x.len() && k < y.len() && #[trigger] x[k] < y[k] && forall|i: int|
                        0 <= i < k ==> #[trigger] x[i] == y[i];
                assert(a[k + 1] < b[k + 1]);
                assert forall|i: int| 0 <= i < k + 1 implies #[trigger] a[i] == b[i] by {
                    if i > 0 {
                        assert(x[i - 1] == y[i - 1]);
                    }
                }
            }
        } else {
            if a.len() < b.len() && forall|i: int| 0 <= i < a.len() ==> #[trigger] a[i] == b[i] {
                assert(a[0] == b[0]);
                assert forall|i: int| 0 <= i < x.len() implies #[trigger] x[i] == y[i] by {
                    assert(a[i + 1] == b[i + 1]);
                }
                assert(false);
            }
            if exists|k: int|
                0 <= k < a.len() && k < b.len() && #[trigger] a[k] < b[k] && forall|i: int|
                    0 <= i < k ==> #[trigger] a[i] == b[i] {
                let k = choose|k: int|
                    0 <= k < a.len() && k < b.len() && #[trigger] a[k] < b[k] && forall|i: int|
                        0 <= i < k ==> #[trigger] a[i] == b[i];
                if k > 0 {
                    assert(a[0] == b[0]);
                    assert(x[k - 1] < y[k - 1]);
                    assert forall|i: int| 0 <= i < k - 1 implies #[trigger] x[i] == y[i] by {
                        assert(a[i + 1] == b[i + 1]);
                    }
                }
                assert(false);
            }
        }
    }
}

/// Names that share a prefix are ordered by what follows it.
proof fn lemma_common_prefix(a: Seq<u8>, b: Seq<u8>, n: int)
    requires
        0 <= n <= a.len(),
        n <= b.len(),
        forall|i: int| 0 <= i < n ==> a[i] == b[i],
    ensures
        before(a, b) == before(a.skip(n), b.skip(n)),
    decreases n,
{
    if n == 0 {
        assert(a.skip(0) =~= a);
        assert(b.skip(0) =~= b);
    } else {
        let (x, y) = (a.drop_first(), b.drop_first());
        assert forall|i: int| 0 <= i < n - 1 implies x[i] == y[i] by {
            assert(x[i] == a[i + 1] && y[i] == b[i + 1]);
        }
        lemma_common_prefix(x, y, n - 1);
        assert(x.skip(n - 1) =~= a.skip(n));
        assert(y.skip(n - 1) =~= b.skip(n));
    }
}

/// How two names stand to each other.
pub enum Place {
    Earlier,
    Same,
    Later,
}

/// Where `a` stands to `b` in byte order.
pub fn place(a: &[u8], b: &[u8]) -> (p: Place)
    ensures
        match p {
            Place::Earlier => before(a@, b@),
            Place::Same => a@ == b@,
            Place::Later => before(b@, a@),
        },
{
    let mut i: usize = 0;
    while i < a.len() && i < b.len()
        invariant
            i <= a.len(),
            i <= b.len(),
            forall|j: int| 0 <= j < i ==> a@[j] == b@[j],
        decreases a.len() - i,
    {
        if a[i] != b[i] {
            proof {
                lemma_common_prefix(a@, b@, i as int);
                lemma_common_prefix(b@, a@, i as int);
                assert(a@.skip(i as int)[0] == a@[i as int]);
                assert(b@.skip(i as int)[0] == b@[i as int]);
            }
            return if a[i] < b[i] {
                Place::Earlier
            } else {
                Place::Later
            };
        }
        i += 1;
    }
    proof {
        lemma_common_prefix(a@, b@, i as int);
        lemma_common_prefix(b@, a@, i as int);
    }
    if i < b.len() {
        Place::Earlier
    } else if i < a.len() {
        Place::Later
    } else {
        assert(a@ =~= b@);
        Place::Same
    }
}

/// Entries in strict name order: sorted, and no name twice.
pub open spec fn in_order(entries: Seq<(Vec<u8>, Stats)>) -> bool {
    forall|i: int, j: int|
        #![trigger entries[i], entries[j]]
        0 <= i < j < entries.len() ==> before(entries[i].0@, entries[j].0@)
}

/// The first `n` entries as a tally.
pub open spec fn listed(entries: Seq<(Vec<u8>, Stats)>, n: int) -> Tally
    decreases n,
{
    if n <= 0 {
        Map::empty()
    } else {
        listed(entries, n - 1).insert(entries[n - 1].0@, entries[n - 1].1@)
    }
}

/// What is listed is in some entry, and every entry is listed.
pub proof fn lemma_listed(entries: Seq<(Vec<u8>, Stats)>, n: int)
    requires
        in_order(entries),
        0 <= n <= entries.len(),
    ensures
        listed(entries, n).dom().finite(),
        listed(entries, n).len() == n,
        forall|i: int|
            0 <= i < n ==> listed(entries, n).contains_key((#[trigger] entries[i]).0@) && listed(
                entries,
                n,
            )[entries[i].0@] == entries[i].1@,
        forall|name: Seq<u8>| #[trigger]
            listed(entries, n).contains_key(name) ==> exists|i: int|
                0 <= i < n && (#[trigger] entries[i]).0@ == name,
    decreases n,
{
    if n > 0 {
        lemma_listed(entries, n - 1);
        let last = entries[n - 1];
        assert forall|i: int| 0 <= i < n - 1 implies (#[trigger] entries[i]).0@ != last.0@ by {
            assert(before(entries[i].0@, last.0@));
            law_order_is_total(entries[i].0@, last.0@);
        }
        assert forall|name: Seq<u8>| #[trigger]
            listed(entries, n).contains_key(name) implies exists|i: int|
            0 <= i < n && (#[trigger] entries[i]).0@ == name by {
            if name == last.0@ {
                assert(entries[n - 1].0@ == name);
            } else {
                assert(listed(entries, n - 1).contains_key(name));
                let i = choose|i: int| 0 <= i < n - 1 && (#[trigger] entries[i]).0@ == name;
                assert(entries[i].0@ == name);
            }
        }
    }
}

/// All stations, in name order: what a report is printed from.
pub struct Merged {
    entries: Vec<(Vec<u8>, Stats)>,
}

impl View for Merged {
    type V = Tally;

    closed spec fn view(&self) -> Tally {
        listed(self.entries@, self.entries@.len() as int)
    }
}

/// A list of what the slots hold.
pub open spec fn lists(v: Seq<(&[u8], Stats)>, cells: Cells) -> bool {
    &&& distinct(cells)
    &&& v.len() == compact(cells, cells.len() as int).len()
    &&& forall|i: int|
        #![trigger v[i]]
        0 <= i < v.len() ==> {
            let c = compact(cells, cells.len() as int)[i];
            v[i].0@ == c.name && v[i].1@ == c.stats
        }
}

/// Entries as slots, all of them taken.
spec fn cells_listed(entries: Seq<(Vec<u8>, Stats)>) -> Cells {
    Seq::new(
        entries.len(),
        |i: int| Some(Cell { name: entries[i].0@, hash: 0, stats: entries[i].1@ }),
    )
}

/// What entries hold as slots is what they list.
proof fn lemma_cells_listed(entries: Seq<(Vec<u8>, Stats)>, n: int)
    requires
        0 <= n <= entries.len(),
    ensures
        held(cells_listed(entries), n) == listed(entries, n),
        compact(cells_listed(entries), n).len() == n,
        forall|i: int|
            0 <= i < n ==> #[trigger] compact(cells_listed(entries), n)[i] == cells_listed(
                entries,
            )[i]->0,
    decreases n,
{
    if n > 0 {
        lemma_cells_listed(entries, n - 1);
    }
}

/// Counts are kept in 32 bits.
pub proof fn lemma_counts(m: Merged)
    requires
        m.wf(),
    ensures
        counts_fit(m@),
{
    lemma_listed(m.entries@, m.entries@.len() as int);
    assert forall|name: Seq<u8>| #[trigger] m@.contains_key(name) implies m@[name].count
        <= u32::MAX by {
        let i = choose|i: int|
            0 <= i < m.entries@.len() && (#[trigger] m.entries@[i]).0@ == name;
        assert(m@[m.entries@[i].0@] == m.entries@[i].1@);
    }
}

impl Merged {
    /// The stations are in strict name order.
    pub closed spec fn wf(&self) -> bool {
        in_order(self.entries@)
    }

    pub fn new() -> (m: Self)
        ensures
            m.wf(),
            m@ == Map::<Seq<u8>, Summary>::empty(),
    {
        Merged { entries: Vec::new() }
    }

    /// Where `name` is, or where it would go.
    fn find(&self, name: &[u8]) -> (r: Result<usize, usize>)
        requires
            self.wf(),
        ensures
            match r {
                Ok(i) => {
                    &&& i < self.entries@.len()
                    &&& self.entries@[i as int].0@ == name@
                    &&& self@.contains_key(name@)
                    &&& self@[name@] == self.entries@[i as int].1@
                },
                Err(i) => {
                    &&& i <= self.entries@.len()
                    &&& !self@.contains_key(name@)
                    &&& forall|j: int| 0 <= j < i ==> before((#[trigger] self.entries@[j]).0@, name@)
                    &&& forall|j: int|
                        i <= j < self.entries@.len() ==> before(
                            name@,
                            (#[trigger] self.entries@[j]).0@,
                        )
                },
            },
    {
        let mut lo: usize = 0;
        let mut hi: usize = self.entries.len();
        proof {
            lemma_listed(self.entries@, self.entries@.len() as int);
        }
        while lo < hi
            invariant
                self.wf(),
                lo <= hi <= self.entries@.len(),
                forall|j: int| 0 <= j < lo ==> before((#[trigger] self.entries@[j]).0@, name@),
                forall|j: int|
                    hi <= j < self.entries@.len() ==> before(
                        name@,
                        (#[trigger] self.entries@[j]).0@,
                    ),
                forall|i: int|
                    0 <= i < self.entries@.len() ==> self@.contains_key(
                        (#[trigger] self.entries@[i]).0@,
                    ) && self@[self.entries@[i].0@] == self.entries@[i].1@,
            decreases hi - lo,
        {
            let mid = lo + (hi - lo) / 2;
            let ghost here = self.entries@[mid as int].0@;
            match place(self.entries[mid].0.as_slice(), name) {
                Place::Same => {
                    return Ok(mid);
                },
                Place::Earlier => {
                    assert forall|j: int| 0 <= j < mid + 1 implies before(
                        (#[trigger] self.entries@[j]).0@,
                        name@,
                    ) by {
                        if j < mid {
                            assert(before(self.entries@[j].0@, here));
                            law_order_is_transitive(self.entries@[j].0@, here, name@);
                        }
                    }
                    lo = mid + 1;
                },
                Place::Later => {
                    assert forall|j: int| mid <= j < self.entries@.len() implies before(
                        name@,
                        (#[trigger] self.entries@[j]).0@,
                    ) by {
                        if mid < j {
                            assert(before(here, self.entries@[j].0@));
                            law_order_is_transitive(name@, here, self.entries@[j].0@);
                        }
                    }
                    hi = mid;
                },
            }
        }
        proof {
            if self@.contains_key(name@) {
                let i = choose|i: int|
                    0 <= i < self.entries@.len() && (#[trigger] self.entries@[i]).0@ == name@;
                law_order_is_total(name@, name@);
                assert(before(self.entries@[i].0@, name@) || before(name@, self.entries@[i].0@));
            }
        }
        Err(lo)
    }

    /// Adds what a worker has accumulated for one station.
    pub fn add(&mut self, name: &[u8], stats: &Stats)
        requires
            old(self).wf(),
            old(self)@.contains_key(name@) ==> {
                &&& i64::MIN <= old(self)@[name@].sum + stats.sum <= i64::MAX
                &&& old(self)@[name@].count + stats.count <= u32::MAX
            },
        ensures
            final(self).wf(),
            final(self)@ == noted(old(self)@, name@, stats@),
    {
        let ghost old_entries = self.entries@;
        match self.find(name) {
            Ok(i) => {
                let mut s = self.entries[i].1;
                s.merge(stats);
                self.entries[i].1 = s;
                proof {
                    lemma_set(old_entries, self.entries@, i as int);
                }
            },
            Err(i) => {
                let mut owned: Vec<u8> = Vec::new();
                owned.extend_from_slice(name);
                assert(owned@ =~= name@);
                self.entries.insert(i, (owned, *stats));
                proof {
                    lemma_inserted(old_entries, self.entries@, i as int);
                }
            },
        }
    }

    /// Adds one measurement.
    pub fn push(&mut self, name: &[u8], value: i16)
        requires
            old(self).wf(),
            old(self)@.contains_key(name@) ==> {
                &&& i64::MIN <= old(self)@[name@].sum + value <= i64::MAX
                &&& old(self)@[name@].count < u32::MAX
            },
        ensures
            final(self).wf(),
            final(self)@ == noted(old(self)@, name@, single(value as int)),
    {
        let ghost old_entries = self.entries@;
        match self.find(name) {
            Ok(i) => {
                let mut s = self.entries[i].1;
                proof {
                    crate::output::law_push_is_merge(s@, value as int);
                }
                s.push(value);
                self.entries[i].1 = s;
                proof {
                    lemma_set(old_entries, self.entries@, i as int);
                }
            },
            Err(i) => {
                let mut owned: Vec<u8> = Vec::new();
                owned.extend_from_slice(name);
                assert(owned@ =~= name@);
                self.entries.insert(i, (owned, Stats::new(value)));
                proof {
                    lemma_inserted(old_entries, self.entries@, i as int);
                }
            },
        }
    }

    /// Adds all that a list holds.
    fn add_all(&mut self, v: &Vec<(&[u8], Stats)>, cells: Ghost<Cells>)
        requires
            old(self).wf(),
            lists(v@, cells@),
            modest(old(self)@),
            modest(held(cells@, cells@.len() as int)),
            counts_fit(joined(old(self)@, held(cells@, cells@.len() as int))),
        ensures
            final(self).wf(),
            final(self)@ == joined(old(self)@, held(cells@, cells@.len() as int)),
            modest(final(self)@),
    {
        let ghost m = self@;
        let ghost cap = cells@.len() as int;
        let ghost list = compact(cells@, cap);
        let ghost n = held(cells@, cap);
        proof {
            lemma_note_all(m, cells@, cap);
            lemma_compact(cells@, cap);
            lemma_compact_distinct(cells@, cap);
        }
        for i in 0..v.len()
            invariant
                lists(v@, cells@),
                list == compact(cells@, cells@.len() as int),
                forall|i: int, j: int|
                    #![trigger list[i], list[j]]
                    0 <= i < j < list.len() ==> list[i].name != list[j].name,
                forall|i: int|
                    0 <= i < list.len() ==> n.contains_key((#[trigger] list[i]).name)
                        && n[list[i].name] == list[i].stats,
                modest(m),
                modest(n),
                counts_fit(joined(m, n)),
                self.wf(),
                modest(self@),
                self@ == note_all(m, list.take(i as int)),
        {
            proof {
                lemma_add_room(m, n, list, i as int);
                assert(v@[i as int].0@ == list[i as int].name);
                assert(list.take(i + 1).drop_last() =~= list.take(i as int));
                assert(list.take(i + 1).last() == list[i as int]);
                lemma_noted_modest(self@, list[i as int].name, list[i as int].stats);
            }
            self.add(v[i].0, &v[i].1);
        }
        assert(list.take(list.len() as int) =~= list);
    }

    /// Whether every station's count still fits with all that a list holds added.
    fn takes_all(&self, v: &Vec<(&[u8], Stats)>, cells: Ghost<Cells>) -> (ok: bool)
        requires
            self.wf(),
            lists(v@, cells@),
        ensures
            ok == counts_fit(joined(self@, held(cells@, cells@.len() as int))),
    {
        let ghost m = self@;
        let ghost cap = cells@.len() as int;
        let ghost list = compact(cells@, cap);
        let ghost n = held(cells@, cap);
        let ghost both = joined(m, n);
        proof {
            lemma_compact(cells@, cap);
            lemma_listed(self.entries@, self.entries@.len() as int);
        }
        for i in 0..v.len()
            invariant
                self.wf(),
                lists(v@, cells@),
                m == self@,
                n == held(cells@, cells@.len() as int),
                both == joined(m, n),
                list == compact(cells@, cells@.len() as int),
                forall|i: int|
                    0 <= i < list.len() ==> n.contains_key((#[trigger] list[i]).name)
                        && n[list[i].name] == list[i].stats,
                forall|j: int|
                    0 <= j < i ==> both[(#[trigger] list[j]).name].count <= u32::MAX,
        {
            let ghost name = list[i as int].name;
            assert(v@[i as int].0@ == name);
            assert(both.contains_key(name));
            match self.find(v[i].0) {
                Ok(at) => {
                    if self.entries[at].1.count > u32::MAX - v[i].1.count {
                        assert(both[name].count > u32::MAX);
                        return false;
                    }
                },
                Err(_) => {},
            }
        }
        assert forall|name: Seq<u8>| #[trigger] both.contains_key(name) implies both[name].count
            <= u32::MAX by {
            if n.contains_key(name) {
                lemma_compact_covers(cells@, cap, name);
                let i = choose|i: int| 0 <= i < list.len() && (#[trigger] list[i]).name == name;
                assert(both[list[i].name].count <= u32::MAX);
            } else {
                let i = choose|i: int|
                    0 <= i < self.entries@.len() && (#[trigger] self.entries@[i]).0@ == name;
                assert(m[name] == self.entries@[i].1@);
            }
        }
        true
    }

    /// Adds all that a worker's table has accumulated, unless a station's count would no longer
    /// fit. In that case nothing is added.
    pub fn add_table(&mut self, t: &InlineTable) -> (ok: bool)
        requires
            old(self).wf(),
            t.shape_ok(),
            modest(old(self)@),
            modest(t@),
        ensures
            ok == counts_fit(joined(old(self)@, t@)),
            final(self).wf(),
            final(self)@ == if ok {
                joined(old(self)@, t@)
            } else {
                old(self)@
            },
            modest(final(self)@),
    {
        proof {
            lemma_shape(*t);
        }
        let v = t.iter();
        let ok = self.takes_all(&v, Ghost(t.cells()));
        if ok {
            self.add_all(&v, Ghost(t.cells()));
        }
        ok
    }

    /// [`add_table`](Merged::add_table) for an offset-keyed table over `data`.
    pub fn add_offset_table(&mut self, t: &Table, data: &[u8]) -> (ok: bool)
        requires
            old(self).wf(),
            t.wf(data@),
            modest(old(self)@),
            modest(t.tally(data@)),
        ensures
            ok == counts_fit(joined(old(self)@, t.tally(data@))),
            final(self).wf(),
            final(self)@ == if ok {
                joined(old(self)@, t.tally(data@))
            } else {
                old(self)@
            },
            modest(final(self)@),
    {
        proof {
            lemma_wf(*t, data@);
        }
        let v = t.iter(data);
        let ok = self.takes_all(&v, Ghost(t.cells(data@)));
        if ok {
            self.add_all(&v, Ghost(t.cells(data@)));
        }
        ok
    }

    /// [`add_table`](Merged::add_table) for what another worker has merged.
    pub fn add_merged(&mut self, other: &Merged) -> (ok: bool)
        requires
            old(self).wf(),
            other.wf(),
            modest(old(self)@),
            modest(other@),
        ensures
            ok == counts_fit(joined(old(self)@, other@)),
            final(self).wf(),
            final(self)@ == if ok {
                joined(old(self)@, other@)
            } else {
                old(self)@
            },
            modest(final(self)@),
    {
        let ghost e = other.entries@;
        let ghost cells = cells_listed(e);
        let mut v: Vec<(&[u8], Stats)> = Vec::new();
        for i in 0..other.entries.len()
            invariant
                e == other.entries@,
                v@.len() == i,
                forall|j: int|
                    #![trigger v@[j]]
                    0 <= j < i ==> v@[j].0@ == e[j].0@ && v@[j].1@ == e[j].1@,
        {
            v.push((other.entries[i].0.as_slice(), other.entries[i].1));
        }
        proof {
            lemma_cells_listed(e, e.len() as int);
            assert forall|i: int, j: int|
                #![trigger cells[i], cells[j]]
                0 <= i < cells.len() && 0 <= j < cells.len() && i != j && cells[i] is Some
                    && cells[j] is Some implies cells[i]->0.name != cells[j]->0.name by {
                law_order_is_total(e[i].0@, e[j].0@);
                if i < j {
                    assert(before(e[i].0@, e[j].0@));
                } else {
                    assert(before(e[j].0@, e[i].0@));
                }
            }
        }
        let ok = self.takes_all(&v, Ghost(cells));
        if ok {
            self.add_all(&v, Ghost(cells));
        }
        ok
    }

    /// Prints the report: `{Name=min/mean/max, ...}` in name order.
    pub fn report(&self, out: &mut Vec<u8>)
        requires
            self.wf(),
            modest(self@),
        ensures
            exists|text: Seq<u8>| #[trigger]
                reports(text, self@) && final(out)@ == old(out)@ + text,
    {
        let ghost e = self.entries@;
        proof {
            lemma_listed(e, e.len() as int);
            assert forall|i: int| 0 <= i < e.len() implies has_mean(#[trigger] e[i].1) by {
                assert(self@.contains_key(e[i].0@));
                assert(self@[e[i].0@] == e[i].1@);
            }
        }
        write_results(out, self.entries.as_slice());
        assert(reports(results_text(e), self@));
    }

    /// The stations in name order, each once.
    pub fn entries(&self) -> (e: &[(Vec<u8>, Stats)])
        requires
            self.wf(),
        ensures
            in_order(e@),
            listed(e@, e@.len() as int) == self@,
    {
        self.entries.as_slice()
    }

    /// How often a station has been counted, if there is one of that name.
    pub fn count_of(&self, name: &[u8]) -> (r: Option<u32>)
        requires
            self.wf(),
        ensures
            match r {
                Some(count) => self@.contains_key(name@) && self@[name@].count == count,
                None => !self@.contains_key(name@),
            },
    {
        match self.find(name) {
            Ok(i) => Some(self.entries[i].1.count),
            Err(_) => None,
        }
    }

    /// How many stations there are.
    pub fn len(&self) -> (n: usize)
        requires
            self.wf(),
        ensures
            self@.dom().finite(),
            n == self@.len(),
    {
        proof {
            lemma_listed(self.entries@, self.entries@.len() as int);
        }
        self.entries.len()
    }
}

/// One entry's statistics replaced.
proof fn lemma_set(old_entries: Seq<(Vec<u8>, Stats)>, entries: Seq<(Vec<u8>, Stats)>, at: int)
    requires
        in_order(old_entries),
        entries.len() == old_entries.len(),
        0 <= at < entries.len(),
        entries[at].0@ == old_entries[at].0@,
        forall|i: int| 0 <= i < entries.len() && i != at ==> #[trigger] entries[i] == old_entries[i],
    ensures
        in_order(entries),
        listed(entries, entries.len() as int) == listed(
            old_entries,
            entries.len() as int,
        ).insert(entries[at].0@, entries[at].1@),
{
    let n = entries.len() as int;
    assert(in_order(entries)) by {
        assert forall|i: int, j: int|
            #![trigger entries[i], entries[j]]
            0 <= i < j < n implies before(entries[i].0@, entries[j].0@) by {
            assert(before(old_entries[i].0@, old_entries[j].0@));
        }
    }
    lemma_same_listing(old_entries, entries, at, at);
}

/// One entry put between its neighbours.
proof fn lemma_inserted(
    old_entries: Seq<(Vec<u8>, Stats)>,
    entries: Seq<(Vec<u8>, Stats)>,
    at: int,
)
    requires
        in_order(old_entries),
        0 <= at <= old_entries.len(),
        entries.len() == old_entries.len() + 1,
        entries == old_entries.insert(at, entries[at]),
        forall|j: int| 0 <= j < at ==> before((#[trigger] old_entries[j]).0@, entries[at].0@),
        forall|j: int|
            at <= j < old_entries.len() ==> before(
                entries[at].0@,
                (#[trigger] old_entries[j]).0@,
            ),
    ensures
        in_order(entries),
        listed(entries, entries.len() as int) == listed(
            old_entries,
            old_entries.len() as int,
        ).insert(entries[at].0@, entries[at].1@),
{
    let n = entries.len() as int;
    assert forall|i: int| 0 <= i < n && i != at implies #[trigger] entries[i] == old_entries[if i
        < at {
        i
    } else {
        i - 1
    }] by {}
    assert(in_order(entries)) by {
        assert forall|i: int, j: int|
            #![trigger entries[i], entries[j]]
            0 <= i < j < n implies before(entries[i].0@, entries[j].0@) by {
            if i != at && j != at {
                let a = if i < at {
                    i
                } else {
                    i - 1
                };
                let b = if j < at {
                    j
                } else {
                    j - 1
                };
                assert(before(old_entries[a].0@, old_entries[b].0@));
            } else if i == at {
                assert(entries[j] == old_entries[j - 1]);
            } else {
                assert(entries[i] == old_entries[i]);
            }
        }
    }
    lemma_same_listing(old_entries, entries, at, n);
}

/// Two listings that differ in the entry at `at`, which the second has and which the first has
/// too if `own` is `at`.
proof fn lemma_same_listing(
    old_entries: Seq<(Vec<u8>, Stats)>,
    entries: Seq<(Vec<u8>, Stats)>,
    at: int,
    own: int,
)
    requires
        in_order(old_entries),
        in_order(entries),
        0 <= at < entries.len(),
        own == at && entries.len() == old_entries.len() && entries[at].0@ == old_entries[at].0@ && (
        forall|i: int|
            0 <= i < entries.len() && i != at ==> #[trigger] entries[i] == old_entries[i]) || own
            == entries.len() && entries.len() == old_entries.len() + 1 && (forall|i: int|
            0 <= i < entries.len() && i != at ==> #[trigger] entries[i] == old_entries[if i < at {
                i
            } else {
                i - 1
            }]) && entries == old_entries.insert(at, entries[at]),
    ensures
        listed(entries, entries.len() as int) == listed(
            old_entries,
            old_entries.len() as int,
        ).insert(entries[at].0@, entries[at].1@),
{
    let n = entries.len() as int;
    let m = old_entries.len() as int;
    lemma_listed(entries, n);
    lemma_listed(old_entries, m);
    let l = listed(entries, n);
    let r = listed(old_entries, m).insert(entries[at].0@, entries[at].1@);
    assert forall|name: Seq<u8>| #[trigger] l.contains_key(name) == r.contains_key(name) by {
        if l.contains_key(name) {
            let i = choose|i: int| 0 <= i < n && (#[trigger] entries[i]).0@ == name;
            if i != at {
                let j = if own == at || i < at {
                    i
                } else {
                    i - 1
                };
                assert(entries[i] == old_entries[j]);
            }
        }
        if listed(old_entries, m).contains_key(name) {
            let j = choose|j: int| 0 <= j < m && (#[trigger] old_entries[j]).0@ == name;
            let i = if own == at || j < at {
                j
            } else {
                j + 1
            };
            if i != at {
                assert(entries[i] == old_entries[j]);
            }
            assert(entries[i].0@ == name);
        }
        assert(entries[at].0@ == entries[at].0@);
    }
    assert forall|name: Seq<u8>| #[trigger] l.contains_key(name) implies l[name] == r[name] by {
        let i = choose|i: int| 0 <= i < n && (#[trigger] entries[i]).0@ == name;
        if i != at {
            let j = if own == at || i < at {
                i
            } else {
                i - 1
            };
            assert(entries[i] == old_entries[j]);
            if entries[at].0@ == name {
                law_order_is_total(name, name);
                if i < at {
                    assert(before(entries[i].0@, entries[at].0@));
                } else {
                    assert(before(entries[at].0@, entries[i].0@));
                }
            }
        }
    }
    assert(l =~= r);
}

/// A tally has one listing: two lists in name order that hold the same say the same.
pub proof fn law_listing_is_unique(a: Seq<(Vec<u8>, Stats)>, b: Seq<(Vec<u8>, Stats)>)
    requires
        in_order(a),
        in_order(b),
        listed(a, a.len() as int) == listed(b, b.len() as int),
    ensures
        a.len() == b.len(),
        forall|i: int|
            #![trigger a[i]]
            #![trigger b[i]]
            0 <= i < a.len() ==> a[i].0@ == b[i].0@ && a[i].1@ == b[i].1@,
{
    lemma_listed(a, a.len() as int);
    lemma_listed(b, b.len() as int);
    assert forall|i: int|
        #![trigger a[i]]
        #![trigger b[i]]
        0 <= i < a.len() implies a[i].0@ == b[i].0@ && a[i].1@ == b[i].1@ by {
        lemma_listing_agrees(a, b, i);
        assert(listed(a, a.len() as int)[a[i].0@] == a[i].1@);
        assert(listed(b, b.len() as int)[b[i].0@] == b[i].1@);
    }
}

proof fn lemma_listing_agrees(a: Seq<(Vec<u8>, Stats)>, b: Seq<(Vec<u8>, Stats)>, i: int)
    requires
        in_order(a),
        in_order(b),
        a.len() == b.len(),
        listed(a, a.len() as int) == listed(b, b.len() as int),
        0 <= i < a.len(),
    ensures
        a[i].0@ == b[i].0@,
    decreases i,
{
    let m = listed(a, a.len() as int);
    lemma_listed(a, a.len() as int);
    lemma_listed(b, b.len() as int);
    let x = a[i].0@;
    let y = b[i].0@;
    assert(m.contains_key(x) && m.contains_key(y));
    let j = choose|j: int| 0 <= j < b.len() && (#[trigger] b[j]).0@ == x;
    let k = choose|k: int| 0 <= k < a.len() && (#[trigger] a[k]).0@ == y;
    law_order_is_total(x, y);
    if j < i {
        lemma_listing_agrees(a, b, j);
        assert(before(a[j].0@, a[i].0@));
        law_order_is_total(x, x);
    }
    if k < i {
        lemma_listing_agrees(a, b, k);
        assert(before(b[k].0@, b[i].0@));
        law_order_is_total(y, y);
    }
    if j > i && k > i {
        assert(before(b[i].0@, b[j].0@));
        assert(before(a[i].0@, a[k].0@));
    }
}

/// The report on a tally: its stations in name order, each with minimum, mean and maximum.
pub open spec fn reports(text: Seq<u8>, m: Tally) -> bool {
    exists|e: Seq<(Vec<u8>, Stats)>|
        in_order(e) && #[trigger] listed(e, e.len() as int) == m && text == results_text(e)
}

/// The report is determined by the tally: runs that agree on the rows print the same bytes.
pub proof fn law_report_is_unique(a: Seq<u8>, b: Seq<u8>, m: Tally)
    requires
        reports(a, m),
        reports(b, m),
    ensures
        a == b,
{
    let x = choose|e: Seq<(Vec<u8>, Stats)>|
        in_order(e) && #[trigger] listed(e, e.len() as int) == m && a == results_text(e);
    let y = choose|e: Seq<(Vec<u8>, Stats)>|
        in_order(e) && #[trigger] listed(e, e.len() as int) == m && b == results_text(e);
    law_listing_is_unique(x, y);
    lemma_same_text(x, y, x.len());
}

proof fn lemma_same_text(x: Seq<(Vec<u8>, Stats)>, y: Seq<(Vec<u8>, Stats)>, n: nat)
    requires
        x.len() == y.len(),
        n <= x.len(),
        forall|i: int|
            #![trigger x[i]]
            #![trigger y[i]]
            0 <= i < x.len() ==> x[i].0@ == y[i].0@ && x[i].1@ == y[i].1@,
    ensures
        entries_text(x, n) == entries_text(y, n),
    decreases n,
{
    if n > 0 {
        lemma_same_text(x, y, (n - 1) as nat);
        assert(x[n - 1].0@ == y[n - 1].0@);
    }
}

/// There is room for the next of a table's names.
proof fn lemma_add_room(m: Tally, n: Tally, list: Seq<Cell>, i: int)
    requires
        0 <= i < list.len(),
        forall|i: int, j: int|
            #![trigger list[i], list[j]]
            0 <= i < j < list.len() ==> list[i].name != list[j].name,
        n.contains_key(list[i].name),
        n[list[i].name] == list[i].stats,
        modest(m),
        modest(n),
        counts_fit(joined(m, n)),
    ensures
        ({
            let now = note_all(m, list.take(i));
            let c = list[i];
            now.contains_key(c.name) ==> {
                &&& now[c.name].count + c.stats.count <= u32::MAX
                &&& i64::MIN <= now[c.name].sum + c.stats.sum <= i64::MAX
            }
        }),
        list[i].stats.count > 0,
        -999 * list[i].stats.count <= list[i].stats.sum <= 999 * list[i].stats.count,
{
    let c = list[i];
    let part = list.take(i);
    assert forall|j: int| 0 <= j < part.len() implies (#[trigger] part[j]).name != c.name by {
        assert(part[j] == list[j]);
    }
    lemma_note_all_others(m, part, c.name);
    assert(joined(m, n).contains_key(c.name));
}

proof fn lemma_noted_modest(m: Tally, name: Seq<u8>, s: Summary)
    requires
        modest(m),
        s.count > 0,
        -999 * s.count <= s.sum <= 999 * s.count,
    ensures
        modest(noted(m, name, s)),
{
}

/// `part` stands in `text` from `i` on.
pub open spec fn stands_at(text: Seq<u8>, i: int, part: Seq<u8>) -> bool {
    0 <= i && i + part.len() <= text.len() && text.subrange(i, i + part.len()) == part
}

/// Where entry `i` starts in the report.
spec fn entry_start(e: Seq<(Vec<u8>, Stats)>, i: int) -> int {
    1 + entries_text(e, i as nat).len() + if i > 0 {
        2int
    } else {
        0
    }
}

proof fn lemma_entry_stands(e: Seq<(Vec<u8>, Stats)>, i: int, n: int)
    requires
        0 <= i < n <= e.len(),
    ensures
        ({
            let text = entry_text(e[i].0@, e[i].1@);
            let at = entry_start(e, i) - 1;
            &&& at + text.len() <= entries_text(e, n as nat).len()
            &&& entries_text(e, n as nat).subrange(at, at + text.len()) == text
        }),
    decreases n,
{
    let all = entries_text(e, n as nat);
    let text = entry_text(e[i].0@, e[i].1@);
    let at = entry_start(e, i) - 1;
    if i < n - 1 {
        lemma_entry_stands(e, i, n - 1);
        let shorter = entries_text(e, (n - 1) as nat);
        assert(all.subrange(at, at + text.len()) =~= shorter.subrange(at, at + text.len()));
    } else {
        assert(all.subrange(at, at + text.len()) =~= text);
    }
}

proof fn lemma_starts_grow(e: Seq<(Vec<u8>, Stats)>, i: int, j: int)
    requires
        0 <= i < j < e.len(),
    ensures
        entry_start(e, i) + entry_text(e[i].0@, e[i].1@).len() + 2 <= entry_start(e, j),
    decreases j - i,
{
    if i < j - 1 {
        lemma_starts_grow(e, i, j - 1);
    }
}

/// **The report has every station, in the order of their names' bytes.** Of two stations of a tally
/// both are printed, and the one whose name is the smaller at the first byte that differs, or is a
/// proper prefix of the other, is printed first.
pub proof fn law_report_is_in_byte_order(text: Seq<u8>, m: Tally, a: Seq<u8>, b: Seq<u8>)
    requires
        reports(text, m),
        m.contains_key(a),
        m.contains_key(b),
        (a.len() < b.len() && forall|i: int| 0 <= i < a.len() ==> #[trigger] a[i] == b[i]) || exists|
            k: int,
        |
            0 <= k < a.len() && k < b.len() && #[trigger] a[k] < b[k] && forall|i: int|
                0 <= i < k ==> #[trigger] a[i] == b[i],
    ensures
        exists|i: int, j: int|
            {
                &&& #[trigger] stands_at(text, i, entry_text(a, m[a]))
                &&& #[trigger] stands_at(text, j, entry_text(b, m[b]))
                &&& i + entry_text(a, m[a]).len() < j
            },
{
    law_order_is_of_raw_bytes(a, b);
    lemma_report_in_order(text, m, a, b);
}

proof fn lemma_entry_printed(e: Seq<(Vec<u8>, Stats)>, i: int)
    requires
        0 <= i < e.len(),
    ensures
        stands_at(results_text(e), entry_start(e, i), entry_text(e[i].0@, e[i].1@)),
{
    let part = entry_text(e[i].0@, e[i].1@);
    let at = entry_start(e, i);
    let inner = entries_text(e, e.len());
    lemma_entry_stands(e, i, e.len() as int);
    assert(results_text(e).subrange(at, at + part.len()) =~= inner.subrange(
        at - 1,
        at - 1 + part.len(),
    ));
}

proof fn lemma_report_in_order(text: Seq<u8>, m: Tally, a: Seq<u8>, b: Seq<u8>)
    requires
        reports(text, m),
        m.contains_key(a),
        m.contains_key(b),
        before(a, b),
    ensures
        exists|i: int, j: int|
            {
                &&& #[trigger] stands_at(text, i, entry_text(a, m[a]))
                &&& #[trigger] stands_at(text, j, entry_text(b, m[b]))
                &&& i + entry_text(a, m[a]).len() < j
            },
{
    let e = choose|e: Seq<(Vec<u8>, Stats)>|
        in_order(e) && #[trigger] listed(e, e.len() as int) == m && text == results_text(e);
    let n = e.len() as int;
    lemma_listed(e, n);
    let p = choose|i: int| 0 <= i < n && (#[trigger] e[i]).0@ == a;
    let q = choose|i: int| 0 <= i < n && (#[trigger] e[i]).0@ == b;
    law_order_is_total(a, b);
    if q < p {
        assert(before(e[q].0@, e[p].0@));
    }
    assert(m[e[p].0@] == e[p].1@ && m[e[q].0@] == e[q].1@);
    lemma_entry_printed(e, p);
    lemma_entry_printed(e, q);
    lemma_starts_grow(e, p, q);
    assert(stands_at(text, entry_start(e, p), entry_text(a, m[a])));
    assert(stands_at(text, entry_start(e, q), entry_text(b, m[b])));
}

/// Nothing is printed that is not in the tally: the report is as long as the stations' texts, what
/// separates them and what frames them.
pub proof fn law_report_has_nothing_else(text: Seq<u8>, m: Tally)
    requires
        reports(text, m),
    ensures
        exists|names: Seq<Seq<u8>>|
            {
                &&& names.no_duplicates()
                &&& forall|name: Seq<u8>| m.contains_key(name) <==> #[trigger] names.contains(name)
                &&& text == seq![0x7Bu8] + #[trigger] joined_texts(names, m) + seq![0x7Du8, 0x0A]
            },
{
    let e = choose|e: Seq<(Vec<u8>, Stats)>|
        in_order(e) && #[trigger] listed(e, e.len() as int) == m && text == results_text(e);
    let n = e.len() as int;
    let names = Seq::new(e.len(), |i: int| e[i].0@);
    lemma_listed(e, n);
    assert(names.no_duplicates()) by {
        assert forall|i: int, j: int| 0 <= i < j < names.len() implies names[i] != names[j] by {
            assert(before(e[i].0@, e[j].0@));
            law_order_is_total(names[i], names[j]);
        }
    }
    assert forall|name: Seq<u8>| m.contains_key(name) <==> #[trigger] names.contains(name) by {
        if m.contains_key(name) {
            let i = choose|i: int| 0 <= i < n && (#[trigger] e[i]).0@ == name;
            assert(names[i] == name);
        }
        if names.contains(name) {
            let i = choose|i: int| 0 <= i < names.len() && names[i] == name;
            assert(m.contains_key(e[i].0@));
        }
    }
    lemma_joined_texts(e, m, n);
    assert(names.take(n) =~= names);
    assert(text =~= seq![0x7Bu8] + joined_texts(names, m) + seq![0x7Du8, 0x0A]);
}

/// The texts of stations, with `, ` between them.
pub open spec fn joined_texts(names: Seq<Seq<u8>>, m: Tally) -> Seq<u8>
    decreases names.len(),
{
    if names.len() == 0 {
        seq![]
    } else {
        joined_texts(names.drop_last(), m) + (if names.len() > 1 {
            seq![0x2Cu8, 0x20]
        } else {
            seq![]
        }) + entry_text(names.last(), m[names.last()])
    }
}

proof fn lemma_joined_texts(e: Seq<(Vec<u8>, Stats)>, m: Tally, n: int)
    requires
        0 <= n <= e.len(),
        forall|i: int| 0 <= i < e.len() ==> m[(#[trigger] e[i]).0@] == e[i].1@,
    ensures
        joined_texts(Seq::new(e.len(), |i: int| e[i].0@).take(n), m) == entries_text(e, n as nat),
    decreases n,
{
    let names = Seq::new(e.len(), |i: int| e[i].0@);
    if n > 0 {
        lemma_joined_texts(e, m, n - 1);
        assert(names.take(n).drop_last() =~= names.take(n - 1));
        assert(m[e[n - 1].0@] == e[n - 1].1@);
    }
}

} // verus!
