//! Linear probing, as mathematics: slots on a ring, each key stored at or after its home.

use crate::output::pushed;
use crate::output::single;
use crate::output::Summary;
use crate::rows::joined;
use crate::rows::noted;
use crate::rows::Tally;
use vstd::prelude::*;

verus! {

/// A live slot: whose it is, the hash it was stored under, and what it has accumulated.
pub struct Cell {
    pub name: Seq<u8>,
    pub hash: u64,
    pub stats: Summary,
}

/// The slots of a table, empty or live.
pub type Cells = Seq<Option<Cell>>;

/// The slot `k` steps on from `start`, for fewer steps than there are slots.
pub open spec fn along(start: int, k: int, cap: int) -> int {
    if start + k < cap {
        start + k
    } else {
        start + k - cap
    }
}

/// How many steps it takes from `start` to `i`.
pub open spec fn distance(start: int, i: int, cap: int) -> int {
    if start <= i {
        i - start
    } else {
        i - start + cap
    }
}

/// The first slot from `k` steps past `start` on that satisfies `ok`.
pub open spec fn landing_from(
    cells: Cells,
    start: int,
    ok: spec_fn(Option<Cell>) -> bool,
    k: int,
) -> int
    decreases cells.len() - k,
{
    if k >= cells.len() || ok(cells[along(start, k, cells.len() as int)]) {
        along(start, k, cells.len() as int)
    } else {
        landing_from(cells, start, ok, k + 1)
    }
}

/// The first slot from `start` on that satisfies `ok`: where a probe ends.
pub open spec fn landing(cells: Cells, start: int, ok: spec_fn(Option<Cell>) -> bool) -> int {
    landing_from(cells, start, ok, 0)
}

/// Where a probe for a free slot ends.
pub open spec fn is_free() -> spec_fn(Option<Cell>) -> bool {
    |c: Option<Cell>| c is None
}

/// Where a probe for `name` ends: at its slot, or at the free one it would take.
pub open spec fn is_name(name: Seq<u8>) -> spec_fn(Option<Cell>) -> bool {
    |c: Option<Cell>| c is None || c->0.name == name
}

/// Where a probe that matches on length alone ends.
pub open spec fn is_len(len: nat) -> spec_fn(Option<Cell>) -> bool {
    |c: Option<Cell>| c is None || c->0.name.len() == len
}

/// No slot among the first `k` from `start` satisfies `ok`.
pub open spec fn passed(
    cells: Cells,
    start: int,
    ok: spec_fn(Option<Cell>) -> bool,
    k: int,
) -> bool {
    forall|j: int|
        0 <= j < k ==> !ok(#[trigger] cells[along(start, j, cells.len() as int)])
}

/// A probe that has passed `k` slots and meets `ok` at the next one has landed.
pub proof fn lemma_landing(
    cells: Cells,
    start: int,
    ok: spec_fn(Option<Cell>) -> bool,
    k: int,
)
    requires
        0 <= start < cells.len(),
        0 <= k < cells.len(),
        passed(cells, start, ok, k),
        ok(cells[along(start, k, cells.len() as int)]),
    ensures
        landing(cells, start, ok) == along(start, k, cells.len() as int),
{
    lemma_landing_from(cells, start, ok, 0, k);
}

proof fn lemma_landing_from(
    cells: Cells,
    start: int,
    ok: spec_fn(Option<Cell>) -> bool,
    at: int,
    k: int,
)
    requires
        0 <= start < cells.len(),
        0 <= at <= k < cells.len(),
        passed(cells, start, ok, k),
        ok(cells[along(start, k, cells.len() as int)]),
    ensures
        landing_from(cells, start, ok, at) == along(start, k, cells.len() as int),
    decreases k - at,
{
    if at < k {
        assert(!ok(cells[along(start, at, cells.len() as int)]));
        lemma_landing_from(cells, start, ok, at + 1, k);
    }
}

/// Some slot is free.
pub open spec fn roomy(cells: Cells) -> bool {
    exists|f: int| 0 <= f < cells.len() && #[trigger] cells[f] is None
}

/// A probe that stops at free slots lands while one is left: having passed one more slot it
/// has not been all the way round.
pub proof fn lemma_not_exhausted(
    cells: Cells,
    start: int,
    ok: spec_fn(Option<Cell>) -> bool,
    k: int,
)
    requires
        0 <= start < cells.len(),
        0 <= k < cells.len(),
        passed(cells, start, ok, k + 1),
        forall|c: Option<Cell>| c is None ==> #[trigger] ok(c),
        roomy(cells),
    ensures
        k + 1 < cells.len(),
{
    if k + 1 == cells.len() {
        let f = choose|f: int| 0 <= f < cells.len() && #[trigger] cells[f] is None;
        let j = distance(start, f, cells.len() as int);
        assert(along(start, j, cells.len() as int) == f);
        assert(ok(cells[f]));
    }
}

/// How many of the first `n` slots are live.
pub open spec fn live(cells: Cells, n: int) -> nat
    decreases n,
{
    if n <= 0 {
        0
    } else {
        live(cells, n - 1) + if cells[n - 1] is Some {
            1nat
        } else {
            0
        }
    }
}

/// What the first `n` slots hold.
pub open spec fn held(cells: Cells, n: int) -> Tally
    decreases n,
{
    if n <= 0 {
        Map::empty()
    } else {
        match cells[n - 1] {
            Some(c) => held(cells, n - 1).insert(c.name, c.stats),
            None => held(cells, n - 1),
        }
    }
}

/// No two slots hold the same name.
pub open spec fn distinct(cells: Cells) -> bool {
    forall|i: int, j: int|
        #![trigger cells[i], cells[j]]
        0 <= i < cells.len() && 0 <= j < cells.len() && i != j && cells[i] is Some
            && cells[j] is Some ==> cells[i]->0.name != cells[j]->0.name
}

/// Every name is reachable: all the slots from its home to where it sits are live.
pub open spec fn reachable(cells: Cells, home: spec_fn(u64) -> int) -> bool {
    forall|i: int, j: int|
        #![trigger cells[i], along(home(cells[i]->0.hash), j, cells.len() as int)]
        0 <= i < cells.len() && cells[i] is Some && 0 <= j < distance(
            home(cells[i]->0.hash),
            i,
            cells.len() as int,
        ) ==> cells[along(home(cells[i]->0.hash), j, cells.len() as int)] is Some
}

/// Homes are slots.
pub open spec fn homely(cells: Cells, home: spec_fn(u64) -> int) -> bool {
    forall|h: u64| 0 <= #[trigger] home(h) < cells.len()
}

/// The table's invariant.
pub open spec fn sound(cells: Cells, home: spec_fn(u64) -> int) -> bool {
    &&& homely(cells, home)
    &&& distinct(cells)
    &&& reachable(cells, home)
}

/// If `name` is held, it is held under `hash`.
pub open spec fn agrees(cells: Cells, name: Seq<u8>, hash: u64) -> bool {
    forall|i: int|
        0 <= i < cells.len() && (#[trigger] cells[i]) is Some && cells[i]->0.name == name
            ==> cells[i]->0.hash == hash
}

/// What is held is in some slot, what is in a slot is held, and there are as many names as
/// live slots.
pub proof fn lemma_held(cells: Cells, n: int)
    requires
        distinct(cells),
        0 <= n <= cells.len(),
    ensures
        held(cells, n).dom().finite(),
        held(cells, n).len() == live(cells, n),
        forall|i: int|
            0 <= i < n && (#[trigger] cells[i]) is Some ==> held(cells, n).contains_key(
                cells[i]->0.name,
            ) && held(cells, n)[cells[i]->0.name] == cells[i]->0.stats,
        forall|name: Seq<u8>| #[trigger]
            held(cells, n).contains_key(name) ==> exists|i: int|
                0 <= i < n && (#[trigger] cells[i]) is Some && cells[i]->0.name == name,
    decreases n,
{
    if n > 0 {
        lemma_held(cells, n - 1);
        let before = held(cells, n - 1);
        match cells[n - 1] {
            Some(c) => {
                if before.contains_key(c.name) {
                    let i = choose|i: int|
                        0 <= i < n - 1 && (#[trigger] cells[i]) is Some && cells[i]->0.name
                            == c.name;
                    assert(cells[i]->0.name != cells[n - 1]->0.name);
                }
                assert forall|name: Seq<u8>| #[trigger]
                    held(cells, n).contains_key(name) implies exists|i: int|
                    0 <= i < n && (#[trigger] cells[i]) is Some && cells[i]->0.name == name by {
                    if name == c.name {
                        assert(cells[n - 1] is Some);
                    } else {
                        assert(before.contains_key(name));
                        let i = choose|i: int|
                            0 <= i < n - 1 && (#[trigger] cells[i]) is Some && cells[i]->0.name
                                == name;
                        assert(cells[i] is Some);
                    }
                }
            },
            None => {
                assert forall|name: Seq<u8>| #[trigger]
                    held(cells, n).contains_key(name) implies exists|i: int|
                    0 <= i < n && (#[trigger] cells[i]) is Some && cells[i]->0.name == name by {
                    assert(before.contains_key(name));
                    let i = choose|i: int|
                        0 <= i < n - 1 && (#[trigger] cells[i]) is Some && cells[i]->0.name
                            == name;
                    assert(cells[i] is Some);
                }
            },
        }
    }
}

/// Fewer live slots than slots leaves one free.
pub proof fn lemma_roomy(cells: Cells)
    requires
        live(cells, cells.len() as int) < cells.len(),
    ensures
        roomy(cells),
{
    lemma_roomy_in(cells, cells.len() as int);
}

proof fn lemma_roomy_in(cells: Cells, n: int)
    requires
        0 <= n <= cells.len(),
        live(cells, n) < n,
    ensures
        roomy(cells),
    decreases n,
{
    if cells[n - 1] is Some {
        lemma_roomy_in(cells, n - 1);
    }
}

/// Writing a slot moves the number of live ones by what it was and what it becomes.
pub proof fn lemma_live_update(cells: Cells, at: int, c: Option<Cell>, n: int)
    requires
        0 <= at < cells.len(),
        0 <= n <= cells.len(),
    ensures
        live(cells.update(at, c), n) == live(cells, n) + if at < n {
            (if c is Some {
                1int
            } else {
                0
            }) - if cells[at] is Some {
                1int
            } else {
                0
            }
        } else {
            0
        },
    decreases n,
{
    if n > 0 {
        lemma_live_update(cells, at, c, n - 1);
    }
}

/// A table of empty slots.
pub proof fn lemma_blank(cells: Cells, n: int)
    requires
        0 <= n <= cells.len(),
        forall|i: int| 0 <= i < cells.len() ==> #[trigger] cells[i] is None,
    ensures
        live(cells, n) == 0,
        held(cells, n) == Map::<Seq<u8>, Summary>::empty(),
    decreases n,
{
    if n > 0 {
        lemma_blank(cells, n - 1);
    }
}

/// A probe for `name` that lands on a live slot has found it, and one that lands on a free
/// slot has shown that it is not held.
pub proof fn lemma_probe(
    cells: Cells,
    home: spec_fn(u64) -> int,
    name: Seq<u8>,
    hash: u64,
    k: int,
)
    requires
        sound(cells, home),
        agrees(cells, name, hash),
        0 <= k < cells.len(),
        passed(cells, home(hash), is_name(name), k),
        is_name(name)(cells[along(home(hash), k, cells.len() as int)]),
    ensures
        ({
            let at = along(home(hash), k, cells.len() as int);
            &&& 0 <= at < cells.len()
            &&& at == landing(cells, home(hash), is_name(name))
            &&& held(cells, cells.len() as int).contains_key(name) <==> cells[at] is Some
            &&& cells[at] is Some ==> cells[at]->0.name == name && cells[at]->0.hash == hash
            &&& cells[at] is Some ==> held(cells, cells.len() as int)[name] == cells[at]->0.stats
        }),
{
    let cap = cells.len() as int;
    let start = home(hash);
    let at = along(start, k, cap);
    lemma_landing(cells, start, is_name(name), k);
    lemma_held(cells, cap);
    if cells[at] is None && held(cells, cap).contains_key(name) {
        let i = choose|i: int|
            0 <= i < cap && (#[trigger] cells[i]) is Some && cells[i]->0.name == name;
        assert(home(cells[i]->0.hash) == start);
        let d = distance(start, i, cap);
        assert(along(start, d, cap) == i);
        if d < k {
            assert(!is_name(name)(cells[along(start, d, cap)]));
        } else if k < d {
            assert(cells[along(home(cells[i]->0.hash), k, cap)] is Some);
        }
        assert(false);
    }
}

/// Accumulating into a live slot keeps the table sound and changes just that name.
pub proof fn lemma_restat(cells: Cells, home: spec_fn(u64) -> int, at: int, stats: Summary)
    requires
        sound(cells, home),
        0 <= at < cells.len(),
        cells[at] is Some,
    ensures
        ({
            let c = cells[at]->0;
            let after = cells.update(at, Some(Cell { stats, ..c }));
            &&& sound(after, home)
            &&& held(after, cells.len() as int) == held(cells, cells.len() as int).insert(
                c.name,
                stats,
            )
            &&& live(after, cells.len() as int) == live(cells, cells.len() as int)
            &&& forall|n: Seq<u8>, h: u64| agrees(after, n, h) == agrees(cells, n, h)
        }),
{
    let c = cells[at]->0;
    let cap = cells.len() as int;
    let new = Some(Cell { stats, ..c });
    let after = cells.update(at, new);
    lemma_live_update(cells, at, new, cap);
    assert(forall|i: int|
        0 <= i < cap ==> {
            &&& (#[trigger] after[i] is Some) == (cells[i] is Some)
            &&& after[i] is Some ==> after[i]->0.name == cells[i]->0.name && after[i]->0.hash
                == cells[i]->0.hash
        });
    assert(distinct(after));
    assert(reachable(after, home)) by {
        assert forall|i: int, j: int|
            #![trigger after[i], along(home(after[i]->0.hash), j, cap)]
            0 <= i < cap && after[i] is Some && 0 <= j < distance(
                home(after[i]->0.hash),
                i,
                cap,
            ) implies after[along(home(after[i]->0.hash), j, cap)] is Some by {
            let p = along(home(cells[i]->0.hash), j, cap);
            assert(0 <= p < cap);
            assert(cells[p] is Some);
            assert(after[p] is Some);
        }
    }
    lemma_same_tally(cells, after, at, c.name, stats);
    assert forall|n: Seq<u8>, h: u64| agrees(after, n, h) == agrees(cells, n, h) by {
        if agrees(cells, n, h) {
            assert forall|i: int|
                0 <= i < cap && (#[trigger] after[i]) is Some && after[i]->0.name
                    == n implies after[i]->0.hash == h by {
                assert(cells[i] is Some);
            }
        }
        if agrees(after, n, h) {
            assert forall|i: int|
                0 <= i < cap && (#[trigger] cells[i]) is Some && cells[i]->0.name
                    == n implies cells[i]->0.hash == h by {
                assert(after[i] is Some);
            }
        }
    }
}

/// What a table holds when one slot is written for `name`.
proof fn lemma_same_tally(cells: Cells, after: Cells, at: int, name: Seq<u8>, stats: Summary)
    requires
        distinct(cells),
        distinct(after),
        cells.len() == after.len(),
        0 <= at < cells.len(),
        after[at] is Some,
        after[at]->0.name == name,
        after[at]->0.stats == stats,
        cells[at] is Some ==> cells[at]->0.name == name,
        forall|i: int| 0 <= i < cells.len() && i != at ==> #[trigger] after[i] == cells[i],
    ensures
        held(after, cells.len() as int) == held(cells, cells.len() as int).insert(name, stats),
{
    let cap = cells.len() as int;
    lemma_held(cells, cap);
    lemma_held(after, cap);
    let l = held(after, cap);
    let r = held(cells, cap).insert(name, stats);
    assert forall|n: Seq<u8>| #[trigger] l.contains_key(n) == r.contains_key(n) by {
        if l.contains_key(n) && n != name {
            let i = choose|i: int|
                0 <= i < cap && (#[trigger] after[i]) is Some && after[i]->0.name == n;
            assert(cells[i] is Some);
        }
        if r.contains_key(n) && n != name {
            let i = choose|i: int|
                0 <= i < cap && (#[trigger] cells[i]) is Some && cells[i]->0.name == n;
            assert(after[i] is Some);
        }
        if n == name {
            assert(after[at] is Some);
        }
    }
    assert forall|n: Seq<u8>| #[trigger] l.contains_key(n) implies l[n] == r[n] by {
        let i = choose|i: int|
            0 <= i < cap && (#[trigger] after[i]) is Some && after[i]->0.name == n;
        if i == at {
            assert(n == name);
        } else {
            assert(after[i]->0.name != after[at]->0.name);
            assert(cells[i] is Some);
        }
    }
    assert(l =~= r);
}

/// Claiming the free slot that a probe landed on keeps the table sound and adds the name.
pub proof fn lemma_claim(
    cells: Cells,
    home: spec_fn(u64) -> int,
    k: int,
    c: Cell,
)
    requires
        sound(cells, home),
        0 <= k < cells.len(),
        !held(cells, cells.len() as int).contains_key(c.name),
        cells[along(home(c.hash), k, cells.len() as int)] is None,
        forall|j: int|
            0 <= j < k ==> (#[trigger] cells[along(home(c.hash), j, cells.len() as int)]) is Some,
    ensures
        ({
            let at = along(home(c.hash), k, cells.len() as int);
            let after = cells.update(at, Some(c));
            &&& 0 <= at < cells.len()
            &&& sound(after, home)
            &&& held(after, cells.len() as int) == held(cells, cells.len() as int).insert(
                c.name,
                c.stats,
            )
            &&& live(after, cells.len() as int) == live(cells, cells.len() as int) + 1
            &&& forall|n: Seq<u8>, h: u64|
                agrees(after, n, h) == if n == c.name {
                    h == c.hash
                } else {
                    agrees(cells, n, h)
                }
        }),
{
    let cap = cells.len() as int;
    let start = home(c.hash);
    let at = along(start, k, cap);
    let after = cells.update(at, Some(c));
    lemma_live_update(cells, at, Some(c), cap);
    lemma_held(cells, cap);
    assert forall|i: int|
        0 <= i < cap && (#[trigger] cells[i]) is Some implies cells[i]->0.name != c.name by {
        assert(held(cells, cap).contains_key(cells[i]->0.name));
    }
    assert(distinct(after)) by {
        assert forall|i: int, j: int|
            #![trigger after[i], after[j]]
            0 <= i < cap && 0 <= j < cap && i != j && after[i] is Some
                && after[j] is Some implies after[i]->0.name != after[j]->0.name by {
            if i != at {
                assert(cells[i] is Some);
            }
            if j != at {
                assert(cells[j] is Some);
            }
        }
    }
    assert(reachable(after, home)) by {
        assert forall|i: int, j: int|
            #![trigger after[i], along(home(after[i]->0.hash), j, cap)]
            0 <= i < cap && after[i] is Some && 0 <= j < distance(
                home(after[i]->0.hash),
                i,
                cap,
            ) implies after[along(home(after[i]->0.hash), j, cap)] is Some by {
            let p = along(home(after[i]->0.hash), j, cap);
            assert(0 <= p < cap);
            if p != at {
                if i == at {
                    assert(j < k);
                    assert(cells[along(start, j, cap)] is Some);
                } else {
                    assert(cells[i] is Some);
                    assert(cells[along(home(cells[i]->0.hash), j, cap)] is Some);
                }
            }
        }
    }
    lemma_same_tally(cells, after, at, c.name, c.stats);
    assert forall|n: Seq<u8>, h: u64|
        agrees(after, n, h) == if n == c.name {
            h == c.hash
        } else {
            agrees(cells, n, h)
        } by {
        if n == c.name {
            assert(after[at] is Some);
        } else {
            if agrees(cells, n, h) {
                assert forall|i: int|
                    0 <= i < cap && (#[trigger] after[i]) is Some && after[i]->0.name
                        == n implies after[i]->0.hash == h by {
                    assert(cells[i] is Some);
                }
            }
            if agrees(after, n, h) {
                assert forall|i: int|
                    0 <= i < cap && (#[trigger] cells[i]) is Some && cells[i]->0.name
                        == n implies cells[i]->0.hash == h by {
                    assert(after[i] is Some);
                }
            }
        }
    }
}

/// The slots after a measurement that lands on slot `at`: a free slot is claimed, a live
/// one accumulates whatever its name.
pub open spec fn landed(
    cells: Cells,
    at: int,
    name: Seq<u8>,
    hash: u64,
    value: int,
) -> Cells {
    cells.update(
        at,
        Some(
            match cells[at] {
                Some(c) => Cell { stats: pushed(c.stats, value), ..c },
                None => Cell { name, hash, stats: single(value) },
            },
        ),
    )
}

/// Landing on a slot, seen from the names: a live slot accumulates, a free one is claimed for
/// a name that was not held.
pub proof fn lemma_landed(
    cells: Cells,
    home: spec_fn(u64) -> int,
    name: Seq<u8>,
    hash: u64,
    value: int,
    k: int,
)
    requires
        sound(cells, home),
        agrees(cells, name, hash),
        0 <= k < cells.len(),
        passed(cells, home(hash), is_name(name), k),
    ensures
        ({
            let cap = cells.len() as int;
            let at = along(home(hash), k, cap);
            let after = landed(cells, at, name, hash, value);
            &&& sound(after, home)
            &&& live(after, cap) == live(cells, cap) + if cells[at] is None {
                1int
            } else {
                0
            }
            &&& held(after, cap) == match cells[at] {
                Some(c) => held(cells, cap).insert(c.name, pushed(c.stats, value)),
                None => held(cells, cap).insert(name, single(value)),
            }
            &&& forall|n: Seq<u8>, h: u64|
                agrees(after, n, h) == if cells[at] is None && n == name {
                    h == hash
                } else {
                    agrees(cells, n, h)
                }
        }),
{
    let cap = cells.len() as int;
    let at = along(home(hash), k, cap);
    match cells[at] {
        Some(c) => {
            lemma_restat(cells, home, at, pushed(c.stats, value));
        },
        None => {
            lemma_probe(cells, home, name, hash, k);
            assert forall|j: int| 0 <= j < k implies (#[trigger] cells[along(
                home(hash),
                j,
                cap,
            )]) is Some by {
                assert(!is_name(name)(cells[along(home(hash), j, cap)]));
            }
            lemma_claim(cells, home, k, Cell { name, hash, stats: single(value) });
        },
    }
}

/// The live ones of the first `n` slots, in order.
pub open spec fn compact(cells: Cells, n: int) -> Seq<Cell>
    decreases n,
{
    if n <= 0 {
        seq![]
    } else {
        match cells[n - 1] {
            Some(c) => compact(cells, n - 1).push(c),
            None => compact(cells, n - 1),
        }
    }
}

/// The live slots are as many as are listed, and what is listed is what is held.
pub proof fn lemma_compact(cells: Cells, n: int)
    requires
        distinct(cells),
        0 <= n <= cells.len(),
    ensures
        compact(cells, n).len() == live(cells, n),
        forall|i: int|
            0 <= i < compact(cells, n).len() ==> held(cells, n).contains_key(
                (#[trigger] compact(cells, n)[i]).name,
            ) && held(cells, n)[compact(cells, n)[i].name] == compact(cells, n)[i].stats,
    decreases n,
{
    lemma_held(cells, n);
    if n > 0 {
        lemma_compact(cells, n - 1);
        lemma_held(cells, n - 1);
        let l = compact(cells, n);
        let before = compact(cells, n - 1);
        assert forall|i: int| 0 <= i < l.len() implies held(cells, n).contains_key(
            (#[trigger] l[i]).name,
        ) && held(cells, n)[l[i].name] == l[i].stats by {
            if i < before.len() {
                assert(l[i] == before[i]);
                let j = choose|j: int|
                    0 <= j < n - 1 && (#[trigger] cells[j]) is Some && cells[j]->0.name
                        == before[i].name;
                assert(cells[j] is Some);
                if cells[n - 1] is Some {
                    assert(cells[j]->0.name != cells[n - 1]->0.name);
                }
            }
        }
    }
}

/// What is listed are the live slots.
pub proof fn lemma_compact_slots(cells: Cells, n: int)
    requires
        0 <= n <= cells.len(),
    ensures
        forall|i: int|
            0 <= i < n && (#[trigger] cells[i]) is Some ==> compact(cells, n).contains(
                cells[i]->0,
            ),
        forall|j: int|
            0 <= j < compact(cells, n).len() ==> exists|i: int|
                0 <= i < n && #[trigger] cells[i] == Some(#[trigger] compact(cells, n)[j]),
    decreases n,
{
    if n > 0 {
        lemma_compact_slots(cells, n - 1);
        let l = compact(cells, n);
        let part = compact(cells, n - 1);
        assert forall|i: int| 0 <= i < n && (#[trigger] cells[i]) is Some implies l.contains(
            cells[i]->0,
        ) by {
            if i < n - 1 {
                assert(part.contains(cells[i]->0));
                let j = choose|j: int| 0 <= j < part.len() && part[j] == cells[i]->0;
                assert(l[j] == part[j]);
            } else {
                assert(l[l.len() - 1] == cells[i]->0);
            }
        }
        assert forall|j: int| 0 <= j < l.len() implies exists|i: int|
            0 <= i < n && #[trigger] cells[i] == Some(#[trigger] l[j]) by {
            if j < part.len() {
                assert(l[j] == part[j]);
                let i = choose|i: int|
                    0 <= i < n - 1 && #[trigger] cells[i] == Some(#[trigger] part[j]);
                assert(cells[i] == Some(l[j]));
            } else {
                assert(cells[n - 1] == Some(l[j]));
            }
        }
    }
}

/// Whatever is held is listed.
pub proof fn lemma_compact_covers(cells: Cells, n: int, name: Seq<u8>)
    requires
        0 <= n <= cells.len(),
        held(cells, n).contains_key(name),
    ensures
        exists|i: int|
            0 <= i < compact(cells, n).len() && (#[trigger] compact(cells, n)[i]).name == name,
    decreases n,
{
    if n > 0 {
        let l = compact(cells, n);
        if cells[n - 1] is Some && cells[n - 1]->0.name == name {
            assert(l[l.len() - 1].name == name);
        } else {
            lemma_compact_covers(cells, n - 1, name);
            let before = compact(cells, n - 1);
            let i = choose|i: int| 0 <= i < before.len() && (#[trigger] before[i]).name == name;
            assert(l[i] == before[i]);
        }
    }
}

/// `m` with each of `list` noted in turn.
pub open spec fn note_all(m: Tally, list: Seq<Cell>) -> Tally
    decreases list.len(),
{
    if list.len() == 0 {
        m
    } else {
        noted(note_all(m, list.drop_last()), list.last().name, list.last().stats)
    }
}

/// Noting all that a table lists joins what it holds.
pub proof fn lemma_note_all(m: Tally, cells: Cells, n: int)
    requires
        distinct(cells),
        0 <= n <= cells.len(),
    ensures
        note_all(m, compact(cells, n)) == joined(m, held(cells, n)),
    decreases n,
{
    if n == 0 {
        assert(joined(m, held(cells, n)) =~= m);
    } else {
        lemma_note_all(m, cells, n - 1);
        lemma_held(cells, n - 1);
        let before = held(cells, n - 1);
        match cells[n - 1] {
            Some(c) => {
                if before.contains_key(c.name) {
                    let i = choose|i: int|
                        0 <= i < n - 1 && (#[trigger] cells[i]) is Some && cells[i]->0.name
                            == c.name;
                    assert(cells[i]->0.name != cells[n - 1]->0.name);
                }
                assert(compact(cells, n).drop_last() =~= compact(cells, n - 1));
                let l = noted(joined(m, before), c.name, c.stats);
                let r = joined(m, held(cells, n));
                assert forall|name: Seq<u8>| #[trigger] l.contains_key(name) implies l[name]
                    == r[name] by {}
                assert(l =~= r);
            },
            None => {},
        }
    }
}

/// No two listed slots hold the same name.
pub proof fn lemma_compact_distinct(cells: Cells, n: int)
    requires
        distinct(cells),
        0 <= n <= cells.len(),
    ensures
        forall|i: int, j: int|
            #![trigger compact(cells, n)[i], compact(cells, n)[j]]
            0 <= i < j < compact(cells, n).len() ==> compact(cells, n)[i].name != compact(
                cells,
                n,
            )[j].name,
    decreases n,
{
    if n > 0 {
        lemma_compact_distinct(cells, n - 1);
        lemma_compact(cells, n - 1);
        lemma_held(cells, n - 1);
        let l = compact(cells, n);
        let part = compact(cells, n - 1);
        assert forall|i: int, j: int|
            #![trigger l[i], l[j]]
            0 <= i < j < l.len() implies l[i].name != l[j].name by {
            assert(l[i] == part[i]);
            if j < part.len() {
                assert(l[j] == part[j]);
            } else {
                let k = choose|k: int|
                    0 <= k < n - 1 && (#[trigger] cells[k]) is Some && cells[k]->0.name
                        == part[i].name;
                assert(cells[k]->0.name != cells[n - 1]->0.name);
            }
        }
    }
}

/// Noting a list leaves alone the names that are not in it.
pub proof fn lemma_note_all_others(m: Tally, list: Seq<Cell>, name: Seq<u8>)
    requires
        forall|i: int| 0 <= i < list.len() ==> (#[trigger] list[i]).name != name,
    ensures
        note_all(m, list).contains_key(name) == m.contains_key(name),
        m.contains_key(name) ==> note_all(m, list)[name] == m[name],
    decreases list.len(),
{
    if list.len() > 0 {
        let part = list.drop_last();
        assert forall|i: int| 0 <= i < part.len() implies (#[trigger] part[i]).name != name by {
            assert(part[i] == list[i]);
        }
        lemma_note_all_others(m, part, name);
        assert(list[list.len() - 1] == list.last());
    }
}

/// Where a probe ends: at a slot that will do, the first one there is, going up from `start` and round
/// from the last slot to the first.
pub proof fn law_probe_ends_at_the_first_that_will_do(
    cells: Cells,
    start: int,
    ok: spec_fn(Option<Cell>) -> bool,
    i: int,
)
    requires
        0 <= start < cells.len(),
        0 <= i < cells.len(),
        ok(cells[i]),
    ensures
        0 <= landing(cells, start, ok) < cells.len(),
        ok(cells[landing(cells, start, ok)]),
        start <= i ==> start <= landing(cells, start, ok) <= i,
        i < start ==> landing(cells, start, ok) >= start || landing(cells, start, ok) <= i,
{
    let cap = cells.len() as int;
    let k = distance(start, i, cap);
    assert(along(start, k, cap) == i);
    lemma_ends_by(cells, start, ok, 0, k);
}

proof fn lemma_ends_by(
    cells: Cells,
    start: int,
    ok: spec_fn(Option<Cell>) -> bool,
    at: int,
    k: int,
)
    requires
        0 <= start < cells.len(),
        0 <= at <= k < cells.len(),
        ok(cells[along(start, k, cells.len() as int)]),
    ensures
        exists|j: int|
            at <= j <= k && landing_from(cells, start, ok, at) == #[trigger] along(
                start,
                j,
                cells.len() as int,
            ) && ok(cells[along(start, j, cells.len() as int)]),
    decreases k - at,
{
    let cap = cells.len() as int;
    if ok(cells[along(start, at, cap)]) {
        assert(landing_from(cells, start, ok, at) == along(start, at, cap));
    } else {
        assert(at < k);
        lemma_ends_by(cells, start, ok, at + 1, k);
        let j = choose|j: int|
            at + 1 <= j <= k && landing_from(cells, start, ok, at + 1) == #[trigger] along(
                start,
                j,
                cap,
            ) && ok(cells[along(start, j, cap)]);
        assert(landing_from(cells, start, ok, at) == along(start, j, cap));
    }
}

/// What slots hold: the names of the live ones, each with what its slot has.
pub proof fn law_slots_hold_their_names(cells: Cells, n: int, name: Seq<u8>)
    requires
        0 <= n <= cells.len(),
        distinct(cells),
    ensures
        held(cells, n).contains_key(name) <==> exists|i: int|
            0 <= i < n && (#[trigger] cells[i]) is Some && cells[i]->0.name == name,
        forall|i: int|
            0 <= i < n && (#[trigger] cells[i]) is Some && cells[i]->0.name == name ==> held(
                cells,
                n,
            )[name] == cells[i]->0.stats,
    decreases n,
{
    if n > 0 {
        law_slots_hold_their_names(cells, n - 1, name);
        let last = cells[n - 1];
        if last is Some && last->0.name == name {
            assert forall|i: int|
                0 <= i < n && (#[trigger] cells[i]) is Some && cells[i]->0.name == name implies held(
                cells,
                n,
            )[name] == cells[i]->0.stats by {
                assert(i == n - 1);
            }
        }
    }
}

/// Where a measurement lands: a free slot becomes its name's, a live one has it added, and no other
/// slot changes.
pub proof fn law_landing_changes_one_slot(
    cells: Cells,
    at: int,
    name: Seq<u8>,
    hash: u64,
    value: int,
    i: int,
)
    requires
        0 <= at < cells.len(),
        0 <= i < cells.len(),
    ensures
        landed(cells, at, name, hash, value).len() == cells.len(),
        i != at ==> landed(cells, at, name, hash, value)[i] == cells[i],
        landed(cells, at, name, hash, value)[at] is Some,
        ({
            let now = landed(cells, at, name, hash, value)[at]->0;
            match cells[at] {
                Some(c) => {
                    &&& now.name == c.name
                    &&& now.stats.sum == c.stats.sum + value
                    &&& now.stats.count == c.stats.count + 1
                    &&& now.stats.min <= c.stats.min && now.stats.min <= value
                    &&& now.stats.max >= c.stats.max && now.stats.max >= value
                },
                None => {
                    &&& now.name == name
                    &&& now.stats.min == value && now.stats.max == value
                    &&& now.stats.sum == value && now.stats.count == 1
                },
            }
        }),
{
}

} // verus!
