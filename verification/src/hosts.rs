//! Ranking of remote hosts, and the slots that show the busiest of them.
//!
//! A host keeps its slot while it stays among the best `2 * n`, so that bars do
//! not reshuffle constantly; free slots go to the best newcomers.

use crate::capture::Addr;
use crate::number::Double;
use vstd::prelude::*;

verus! {

/// What is known of one remote host.
#[derive(Copy, Clone, Debug, PartialEq, Eq, Structural)]
pub struct HostTotal {
    pub addr: Addr,
    /// Decayed byte score as of the last tick.
    pub score: Double,
    /// Bytes seen since then.
    pub pending: u64,
}

/// The score, 512 bytes, that a host must exceed to be remembered.
pub const SCORE_FLOOR: u64 = 0x4080_0000_0000_0000;

// ---------------------------------------------------------------- table

/// The addresses of a host table.
pub open spec fn addresses(hosts: Seq<HostTotal>) -> Seq<Addr> {
    hosts.map_values(|h: HostTotal| h.addr)
}

/// The scores of a host table.
pub open spec fn scores(hosts: Seq<HostTotal>) -> Seq<Double> {
    hosts.map_values(|h: HostTotal| h.score)
}

/// Whether every entry of a list stands for a number.
pub open spec fn all_numbers(list: Seq<Double>) -> bool {
    forall|i: int| 0 <= i < list.len() ==> (#[trigger] list[i]).is_number()
}

/// The sum of two byte counts, or the largest count if that is less.
pub open spec fn plus_bytes(count: u64, bytes: u32) -> u64 {
    if count + bytes > u64::MAX {
        u64::MAX
    } else {
        (count + bytes) as u64
    }
}

/// A host table after `bytes` more were seen of the host `addr`: its entry has
/// them pending, and a host without an entry gets one.
pub open spec fn credited(hosts: Seq<HostTotal>, addr: Addr, bytes: u32) -> Seq<HostTotal> {
    match addresses(hosts).index_of_first(addr) {
        Some(i) => hosts.update(
            i,
            HostTotal { pending: plus_bytes(hosts[i].pending, bytes), ..hosts[i] },
        ),
        None => hosts.push(
            HostTotal { addr, score: Double { bits: 0 }, pending: plus_bytes(0, bytes) },
        ),
    }
}

/// A host table after the scores have become `decayed`: entries that do not
/// exceed the floor are gone, and nothing is pending.
pub open spec fn survivors(hosts: Seq<HostTotal>, decayed: Seq<Double>) -> Seq<HostTotal>
    decreases hosts.len(),
{
    if hosts.len() == 0 {
        Seq::empty()
    } else {
        let before = survivors(hosts.drop_last(), decayed.drop_last());
        if decayed.last().bits > SCORE_FLOOR {
            before.push(HostTotal { addr: hosts.last().addr, score: decayed.last(), pending: 0 })
        } else {
            before
        }
    }
}

/// The index of a host in the table.
pub fn find_host(hosts: &Vec<HostTotal>, addr: Addr) -> (r: Option<usize>)
    ensures
        addresses(hosts@).index_of_first(addr) == (match r {
            Some(i) => Some(i as int),
            None => None,
        }),
        r matches Some(i) ==> i < hosts@.len() && hosts@[i as int].addr == addr,
        r is None <==> !addresses(hosts@).contains(addr),
{
    let ghost list = addresses(hosts@);
    proof {
        list.index_of_first_ensures(addr);
    }
    let mut i: usize = 0;
    while i < hosts.len()
        invariant
            i <= hosts@.len(),
            list == addresses(hosts@),
            forall|j: int| 0 <= j < i ==> list[j] != addr,
            match list.index_of_first(addr) {
                Some(k) => 0 <= k < list.len() && list[k] == addr && forall|j: int|
                    0 <= j < k ==> list[j] != addr,
                None => !list.contains(addr),
            },
        decreases hosts@.len() - i,
    {
        assert(list[i as int] == hosts@[i as int].addr);
        if hosts[i].addr == addr {
            return Some(i);
        }
        i += 1;
    }
    None
}

/// Count `bytes` for the host `addr`.
pub fn credit_host(hosts: &mut Vec<HostTotal>, addr: Addr, bytes: u32)
    ensures
        final(hosts)@ == credited(old(hosts)@, addr, bytes),
{
    match find_host(hosts, addr) {
        Some(i) => {
            let h = hosts[i];
            let pending = h.pending.saturating_add(bytes as u64);
            hosts.set(i, HostTotal { addr: h.addr, score: h.score, pending });
        },
        None => {
            hosts.push(HostTotal { addr, score: Double { bits: 0 }, pending: bytes as u64 });
        },
    }
}

/// The table with new scores and without the hosts that have faded out.
pub fn decay_hosts(hosts: &Vec<HostTotal>, decayed: &Vec<Double>) -> (left: Vec<HostTotal>)
    requires
        decayed@.len() == hosts@.len(),
        all_numbers(decayed@),
    ensures
        left@ == survivors(hosts@, decayed@),
{
    let mut left: Vec<HostTotal> = Vec::new();
    let mut i: usize = 0;
    while i < hosts.len()
        invariant
            i <= hosts@.len(),
            decayed@.len() == hosts@.len(),
            all_numbers(decayed@),
            left@ == survivors(hosts@.take(i as int), decayed@.take(i as int)),
        decreases hosts@.len() - i,
    {
        assert(hosts@.take(i + 1).drop_last() =~= hosts@.take(i as int));
        assert(decayed@.take(i + 1).drop_last() =~= decayed@.take(i as int));
        if decayed[i].exceeds(Double { bits: SCORE_FLOOR }) {
            left.push(HostTotal { addr: hosts[i].addr, score: decayed[i], pending: 0 });
        }
        i += 1;
    }
    assert(hosts@.take(i as int) =~= hosts@);
    assert(decayed@.take(i as int) =~= decayed@);
    left
}

/// Whether no host has two entries.
pub open spec fn distinct_hosts(hosts: Seq<HostTotal>) -> bool {
    addresses(hosts).no_duplicates()
}

/// Counting bytes for a host keeps the table free of duplicates.
pub proof fn lemma_credited_distinct(hosts: Seq<HostTotal>, addr: Addr, bytes: u32)
    requires
        distinct_hosts(hosts),
    ensures
        distinct_hosts(credited(hosts, addr, bytes)),
{
    let list = addresses(hosts);
    list.index_of_first_ensures(addr);
    match list.index_of_first(addr) {
        Some(i) => {
            assert(addresses(credited(hosts, addr, bytes)) =~= list);
        },
        None => {
            assert(addresses(credited(hosts, addr, bytes)) =~= list.push(addr));
        },
    }
}

/// Counting bytes for a host changes no score; a new host starts from zero.
pub proof fn lemma_credited_scores(hosts: Seq<HostTotal>, addr: Addr, bytes: u32)
    requires
        all_numbers(scores(hosts)),
    ensures
        all_numbers(scores(credited(hosts, addr, bytes))),
        scores(credited(hosts, addr, bytes)).take(hosts.len() as int) == scores(hosts),
{
    let list = addresses(hosts);
    list.index_of_first_ensures(addr);
    let after = scores(credited(hosts, addr, bytes));
    assert forall|i: int| 0 <= i < after.len() implies (#[trigger] after[i]).is_number() by {
        if i < hosts.len() {
            assert(after[i] == scores(hosts)[i]);
        }
    }
    assert(after.take(hosts.len() as int) =~= scores(hosts));
}

/// Dropping faded hosts keeps the table free of duplicates, and adds no host.
pub proof fn lemma_survivors_distinct(hosts: Seq<HostTotal>, decayed: Seq<Double>)
    requires
        distinct_hosts(hosts),
        decayed.len() == hosts.len(),
    ensures
        distinct_hosts(survivors(hosts, decayed)),
        survivors(hosts, decayed).len() <= hosts.len(),
        forall|a: Addr|
            addresses(survivors(hosts, decayed)).contains(a) ==> addresses(hosts).contains(a),
    decreases hosts.len(),
{
    if hosts.len() > 0 {
        let rest = hosts.drop_last();
        let before = survivors(rest, decayed.drop_last());
        assert(addresses(rest) =~= addresses(hosts).drop_last());
        lemma_survivors_distinct(rest, decayed.drop_last());
        let after = survivors(hosts, decayed);
        let last = hosts.last().addr;
        assert(addresses(hosts)[hosts.len() - 1] == last);
        assert(!addresses(rest).contains(last)) by {
            if addresses(rest).contains(last) {
                let j = choose|j: int| 0 <= j < rest.len() && addresses(rest)[j] == last;
                assert(addresses(hosts)[j] == last);
            }
        }
        if decayed.last().bits > SCORE_FLOOR {
            assert(addresses(after) =~= addresses(before).push(last));
        }
        assert forall|a: Addr| addresses(after).contains(a) implies addresses(hosts).contains(a) by {
            let j = choose|j: int| 0 <= j < after.len() && addresses(after)[j] == a;
            if j < before.len() {
                assert(addresses(before)[j] == a);
                assert(addresses(rest).contains(a));
                let k = choose|k: int| 0 <= k < rest.len() && addresses(rest)[k] == a;
                assert(addresses(hosts)[k] == a);
            }
        }
    }
}

/// Every host that is left has a score above the floor, and a number if the
/// decayed scores are numbers.
pub proof fn lemma_survivors_scores(hosts: Seq<HostTotal>, decayed: Seq<Double>)
    requires
        decayed.len() == hosts.len(),
        all_numbers(decayed),
    ensures
        all_numbers(scores(survivors(hosts, decayed))),
        forall|i: int|
            0 <= i < survivors(hosts, decayed).len() ==> (#[trigger] survivors(
                hosts,
                decayed,
            )[i]).score.bits > SCORE_FLOOR,
    decreases hosts.len(),
{
    if hosts.len() > 0 {
        let rest = decayed.drop_last();
        assert forall|i: int| 0 <= i < rest.len() implies (#[trigger] rest[i]).is_number() by {
            assert(rest[i] == decayed[i]);
        }
        lemma_survivors_scores(hosts.drop_last(), rest);
        let before = survivors(hosts.drop_last(), rest);
        let after = survivors(hosts, decayed);
        assert(decayed[decayed.len() - 1].is_number());
        assert forall|i: int| 0 <= i < after.len() implies (#[trigger] after[i]).score.bits
            > SCORE_FLOOR && after[i].score.is_number() by {
            if i < before.len() {
                assert(after[i] == before[i]);
                assert(scores(before)[i] == before[i].score);
            }
        }
        assert forall|i: int| 0 <= i < scores(after).len() implies (#[trigger] scores(
            after,
        )[i]).is_number() by {
            assert(after[i].score.is_number());
        }
    }
}

/// No busy host is lost: a host keeps an entry, with its decayed score and with
/// nothing pending, exactly if that score exceeds 512, and there are as many
/// entries as there are such scores.
pub proof fn lemma_busy_hosts_stay(hosts: Seq<HostTotal>, decayed: Seq<Double>)
    requires
        decayed.len() == hosts.len(),
    ensures
        forall|i: int|
            0 <= i < hosts.len() ==> (decayed[i].bits > 0x4080_0000_0000_0000 <==> survivors(
                hosts,
                decayed,
            ).contains(
                HostTotal { addr: (#[trigger] hosts[i]).addr, score: decayed[i], pending: 0 },
            )),
        survivors(hosts, decayed).len() == decayed.filter(
            |score: Double| score.bits > 0x4080_0000_0000_0000,
        ).len(),
    decreases hosts.len(),
{
    let busy = |score: Double| score.bits > 0x4080_0000_0000_0000;
    reveal(Seq::filter);
    if hosts.len() > 0 {
        let rest = hosts.drop_last();
        let before = survivors(rest, decayed.drop_last());
        let after = survivors(hosts, decayed);
        lemma_busy_hosts_stay(rest, decayed.drop_last());
        lemma_survivors_floor(hosts, decayed);
        assert forall|i: int| 0 <= i < hosts.len() implies (decayed[i].bits > 0x4080_0000_0000_0000
            <==> after.contains(
            HostTotal { addr: (#[trigger] hosts[i]).addr, score: decayed[i], pending: 0 },
        )) by {
            let entry = HostTotal { addr: hosts[i].addr, score: decayed[i], pending: 0 };
            if decayed[i].bits > 0x4080_0000_0000_0000 {
                if i < rest.len() {
                    assert(rest[i] == hosts[i]);
                    assert(before.contains(entry));
                    let k = choose|k: int| 0 <= k < before.len() && before[k] == entry;
                    assert(after[k] == entry);
                } else {
                    assert(after[after.len() - 1] == entry);
                }
            } else if after.contains(entry) {
                let k = choose|k: int| 0 <= k < after.len() && after[k] == entry;
                assert(after[k].score.bits > SCORE_FLOOR);
            }
        }
    }
}

proof fn lemma_survivors_floor(hosts: Seq<HostTotal>, decayed: Seq<Double>)
    requires
        decayed.len() == hosts.len(),
    ensures
        forall|i: int|
            0 <= i < survivors(hosts, decayed).len() ==> (#[trigger] survivors(
                hosts,
                decayed,
            )[i]).score.bits > SCORE_FLOOR,
    decreases hosts.len(),
{
    if hosts.len() > 0 {
        lemma_survivors_floor(hosts.drop_last(), decayed.drop_last());
        let before = survivors(hosts.drop_last(), decayed.drop_last());
        let after = survivors(hosts, decayed);
        assert forall|i: int| 0 <= i < after.len() implies (#[trigger] after[i]).score.bits > SCORE_FLOOR by {
            if i < before.len() {
                assert(after[i] == before[i]);
            }
        }
    }
}

/// Nothing is made up: every entry that is left is that of a listed host, with its
/// decayed score and nothing pending.
pub proof fn lemma_survivors_listed(hosts: Seq<HostTotal>, decayed: Seq<Double>, k: int)
    requires
        decayed.len() == hosts.len(),
        0 <= k < survivors(hosts, decayed).len(),
    ensures
        survivors(hosts, decayed)[k].pending == 0,
        exists|j: int|
            0 <= j < hosts.len() && (#[trigger] hosts[j]).addr == survivors(hosts, decayed)[k].addr
                && decayed[j] == survivors(hosts, decayed)[k].score,
    decreases hosts.len(),
{
    let rest = hosts.drop_last();
    let before = survivors(rest, decayed.drop_last());
    let entry = survivors(hosts, decayed)[k];
    if k < before.len() {
        lemma_survivors_listed(rest, decayed.drop_last(), k);
        let j = choose|j: int|
            0 <= j < rest.len() && (#[trigger] rest[j]).addr == entry.addr && decayed.drop_last()[j]
                == entry.score;
        assert(hosts[j] == rest[j]);
        assert(decayed[j] == entry.score);
    } else {
        assert(hosts[hosts.len() - 1].addr == entry.addr);
    }
}

/// Forgetting some hosts changes nothing of the others: a table that is cut in
/// two can be brought up to date part by part, in the same order.
pub proof fn lemma_survivors_parts(
    first: Seq<HostTotal>,
    second: Seq<HostTotal>,
    a: Seq<Double>,
    b: Seq<Double>,
)
    requires
        a.len() == first.len(),
        b.len() == second.len(),
    ensures
        survivors(first + second, a + b) == survivors(first, a) + survivors(second, b),
    decreases second.len(),
{
    if second.len() == 0 {
        assert(first + second =~= first);
        assert(a + b =~= a);
        assert(survivors(first, a) + survivors(second, b) =~= survivors(first, a));
    } else {
        let rest = second.drop_last();
        lemma_survivors_parts(first, rest, a, b.drop_last());
        assert((first + second).drop_last() =~= first + rest);
        assert((a + b).drop_last() =~= a + b.drop_last());
        assert(survivors(first + second, a + b) =~= survivors(first, a) + survivors(second, b));
    }
}

/// Bytes are counted for their host and for no other: the host has them on top of
/// what was pending for it, with the score it had; every other entry stays; and
/// only a host that was not listed adds an entry, at the end.
pub proof fn lemma_credited_host(hosts: Seq<HostTotal>, addr: Addr, bytes: u32)
    requires
        distinct_hosts(hosts),
    ensures
        ({
            let after = credited(hosts, addr, bytes);
            &&& forall|i: int|
                0 <= i < hosts.len() && (#[trigger] hosts[i]).addr != addr ==> after[i] == hosts[i]
            &&& forall|i: int|
                0 <= i < hosts.len() && (#[trigger] hosts[i]).addr == addr ==> after.len() == hosts.len()
                    && after[i].addr == addr && after[i].score == hosts[i].score && (hosts[i].pending
                    + bytes <= u64::MAX ==> after[i].pending == hosts[i].pending + bytes) && (
                hosts[i].pending + bytes > u64::MAX ==> after[i].pending == u64::MAX)
            &&& (forall|i: int| 0 <= i < hosts.len() ==> (#[trigger] hosts[i]).addr != addr)
                ==> after.len() == hosts.len() + 1 && after.last().addr == addr
                && after.last().score.bits == 0 && after.last().pending == bytes
        }),
{
    let list = addresses(hosts);
    list.index_of_first_ensures(addr);
    assert forall|i: int| 0 <= i < hosts.len() implies list[i] == (#[trigger] hosts[i]).addr by {}
    match list.index_of_first(addr) {
        Some(k) => {
            assert(hosts[k].addr == addr);
            assert forall|i: int| 0 <= i < hosts.len() && (#[trigger] hosts[i]).addr == addr implies i == k by {
                assert(list[i] == list[k]);
            }
        },
        None => {
            assert forall|i: int| 0 <= i < hosts.len() implies (#[trigger] hosts[i]).addr != addr by {
                if hosts[i].addr == addr {
                    assert(list[i] == addr);
                }
            }
        },
    }
}

/// The bytes pending over a whole table.
pub open spec fn total_pending(hosts: Seq<HostTotal>) -> nat
    decreases hosts.len(),
{
    if hosts.len() == 0 {
        0
    } else {
        total_pending(hosts.drop_last()) + hosts.last().pending as nat
    }
}

proof fn lemma_pending_update(hosts: Seq<HostTotal>, i: int, h: HostTotal)
    requires
        0 <= i < hosts.len(),
    ensures
        total_pending(hosts.update(i, h)) == total_pending(hosts) - hosts[i].pending + h.pending,
    decreases hosts.len(),
{
    let after = hosts.update(i, h);
    if i == hosts.len() - 1 {
        assert(after.drop_last() =~= hosts.drop_last());
    } else {
        lemma_pending_update(hosts.drop_last(), i, h);
        assert(after.drop_last() =~= hosts.drop_last().update(i, h));
    }
}

proof fn lemma_pending_bound(hosts: Seq<HostTotal>, i: int)
    requires
        0 <= i < hosts.len(),
    ensures
        hosts[i].pending <= total_pending(hosts),
    decreases hosts.len(),
{
    if i < hosts.len() - 1 {
        lemma_pending_bound(hosts.drop_last(), i);
    }
}

/// Every byte is counted for exactly one host: the bytes pending over the table
/// grow by the bytes credited, as long as the count can hold them.
pub proof fn lemma_credited_total(hosts: Seq<HostTotal>, addr: Addr, bytes: u32)
    requires
        total_pending(hosts) + bytes <= u64::MAX,
    ensures
        total_pending(credited(hosts, addr, bytes)) == total_pending(hosts) + bytes,
{
    let list = addresses(hosts);
    list.index_of_first_ensures(addr);
    match list.index_of_first(addr) {
        Some(i) => {
            lemma_pending_bound(hosts, i);
            lemma_pending_update(
                hosts,
                i,
                HostTotal { pending: plus_bytes(hosts[i].pending, bytes), ..hosts[i] },
            );
        },
        None => {
            assert(credited(hosts, addr, bytes).drop_last() =~= hosts);
        },
    }
}

// ---------------------------------------------------------------- ranking

/// Whether index `i` comes before index `j` in a ranking: a higher score first,
/// and the earlier entry first among equal scores.
pub open spec fn ranks_before(scores: Seq<Double>, i: int, j: int) -> bool {
    scores[i].bits > scores[j].bits || (scores[i].bits == scores[j].bits && i < j)
}

/// Whether `order` lists all indices of `scores` from the best score down.
pub open spec fn is_ranking(scores: Seq<Double>, order: Seq<usize>) -> bool {
    &&& order.len() == scores.len()
    &&& forall|a: int| 0 <= a < order.len() ==> #[trigger] order[a] < scores.len()
    &&& forall|a: int, b: int|
        0 <= a < b < order.len() ==> ranks_before(scores, #[trigger] order[a] as int, #[trigger] order[b] as int)
}

/// Sort the indices of `scores` from the best score down.
pub fn rank(scores: &Vec<Double>) -> (order: Vec<usize>)
    requires
        all_numbers(scores@),
    ensures
        is_ranking(scores@, order@),
{
    let mut order: Vec<usize> = Vec::new();
    let mut i: usize = 0;
    while i < scores.len()
        invariant
            i <= scores@.len(),
            all_numbers(scores@),
            order@.len() == i,
            forall|a: int| 0 <= a < i ==> #[trigger] order@[a] < i,
            forall|a: int, b: int|
                0 <= a < b < i ==> ranks_before(
                    scores@,
                    #[trigger] order@[a] as int,
                    #[trigger] order@[b] as int,
                ),
        decreases scores@.len() - i,
    {
        let mut at: usize = 0;
        while at < i && !scores[i].exceeds(scores[order[at]])
            invariant
                at <= i,
                i < scores@.len(),
                all_numbers(scores@),
                order@.len() == i,
                forall|a: int| 0 <= a < i ==> #[trigger] order@[a] < i,
                forall|a: int| 0 <= a < at ==> ranks_before(scores@, #[trigger] order@[a] as int, i as int),
            decreases i - at,
        {
            at += 1;
        }
        let ghost before = order@;
        order.insert(at, i);
        proof {
            assert forall|a: int, b: int| 0 <= a < b < i + 1 implies ranks_before(
                scores@,
                #[trigger] order@[a] as int,
                #[trigger] order@[b] as int,
            ) by {
                if a < at && b > at {
                    assert(order@[a] == before[a] && order@[b] == before[b - 1]);
                } else if a == at {
                    assert(order@[b] == before[b - 1]);
                    assert(at <= b - 1);
                    if at < b - 1 {
                        assert(ranks_before(scores@, before[at as int] as int, before[b - 1] as int));
                    }
                } else if a > at {
                    assert(order@[a] == before[a - 1] && order@[b] == before[b - 1]);
                }
            }
        }
        i += 1;
    }
    order
}

/// Every index occurs in a ranking.
pub proof fn lemma_ranking_complete(scores: Seq<Double>, order: Seq<usize>, i: int)
    requires
        is_ranking(scores, order),
        0 <= i < scores.len(),
    ensures
        exists|a: int| 0 <= a < order.len() && order[a] == i,
{
    let ints = order.map_values(|x: usize| x as int);
    assert(ints.no_duplicates()) by {
        assert forall|a: int, b: int| 0 <= a < ints.len() && 0 <= b < ints.len() && a != b implies ints[a]
            != ints[b] by {
            if a < b {
                assert(ranks_before(scores, order[a] as int, order[b] as int));
            } else {
                assert(ranks_before(scores, order[b] as int, order[a] as int));
            }
        }
    }
    ints.unique_seq_to_set();
    let all = vstd::set_lib::set_int_range(0, scores.len() as int);
    vstd::set_lib::lemma_int_range(0, scores.len() as int);
    assert(ints.to_set().subset_of(all)) by {
        assert forall|x: int| ints.to_set().contains(x) implies all.contains(x) by {
            let a = choose|a: int| 0 <= a < ints.len() && ints[a] == x;
            assert(order[a] < scores.len());
        }
    }
    vstd::set_lib::lemma_subset_equality(ints.to_set(), all);
    assert(all.contains(i));
    assert(ints.to_set().contains(i));
    let a = choose|a: int| 0 <= a < ints.len() && ints[a] == i;
    assert(order[a] == i);
}

/// There is only one ranking of a list of scores.
pub proof fn lemma_ranking_unique(scores: Seq<Double>, first: Seq<usize>, second: Seq<usize>)
    requires
        is_ranking(scores, first),
        is_ranking(scores, second),
    ensures
        first == second,
{
    assert forall|k: int| 0 <= k < first.len() implies first[k] == second[k] by {
        lemma_ranking_prefix(scores, first, second, k);
    }
    assert(first =~= second);
}

/// The ranking of a list of scores.
pub open spec fn ranking(scores: Seq<Double>) -> Seq<usize> {
    choose|order: Seq<usize>| is_ranking(scores, order)
}

/// The place in `order` before which index `i` belongs, looking from `at` on.
spec fn place_from(scores: Seq<Double>, order: Seq<usize>, i: int, at: int) -> int
    decreases order.len() - at,
{
    if at >= order.len() || scores[i].bits > scores[order[at] as int].bits {
        at
    } else {
        place_from(scores, order, i, at + 1)
    }
}

proof fn lemma_place(scores: Seq<Double>, order: Seq<usize>, i: int, at: int)
    requires
        0 <= at <= order.len(),
        forall|a: int| 0 <= a < at ==> scores[#[trigger] order[a] as int].bits >= scores[i].bits,
    ensures
        at <= place_from(scores, order, i, at) <= order.len(),
        forall|a: int|
            0 <= a < place_from(scores, order, i, at) ==> scores[#[trigger] order[a] as int].bits
                >= scores[i].bits,
        place_from(scores, order, i, at) < order.len() ==> scores[i].bits
            > scores[order[place_from(scores, order, i, at)] as int].bits,
    decreases order.len() - at,
{
    if at < order.len() && scores[i].bits <= scores[order[at] as int].bits {
        lemma_place(scores, order, i, at + 1);
    }
}

/// Every list of scores has a ranking, and `ranking` is it.
pub proof fn lemma_ranking_exists(scores: Seq<Double>)
    requires
        scores.len() <= usize::MAX,
    ensures
        is_ranking(scores, ranking(scores)),
    decreases scores.len(),
{
    if scores.len() == 0 {
        assert(is_ranking(scores, Seq::empty()));
    } else {
        let rest = scores.drop_last();
        let i = scores.len() - 1;
        lemma_ranking_exists(rest);
        let before = ranking(rest);
        lemma_place(scores, before, i, 0);
        let at = place_from(scores, before, i, 0);
        let order = before.insert(at, i as usize);
        assert forall|a: int| 0 <= a < order.len() implies #[trigger] order[a] < scores.len() by {
            if a < at {
                assert(order[a] == before[a]);
            } else if a > at {
                assert(order[a] == before[a - 1]);
            }
        }
        assert forall|a: int, b: int| 0 <= a < b < order.len() implies ranks_before(
            scores,
            #[trigger] order[a] as int,
            #[trigger] order[b] as int,
        ) by {
            if b < at {
                assert(order[a] == before[a] && order[b] == before[b]);
                assert(ranks_before(rest, before[a] as int, before[b] as int));
            } else if b == at {
                assert(order[a] == before[a]);
                assert(before[a] < rest.len());
            } else if a < at {
                assert(order[a] == before[a] && order[b] == before[b - 1]);
                assert(ranks_before(rest, before[a] as int, before[b - 1] as int));
            } else if a == at {
                assert(order[b] == before[b - 1]);
                if at < b - 1 {
                    assert(ranks_before(rest, before[at] as int, before[b - 1] as int));
                }
                assert(before[at] < rest.len() && before[b - 1] < rest.len());
            } else {
                assert(order[a] == before[a - 1] && order[b] == before[b - 1]);
                assert(ranks_before(rest, before[a - 1] as int, before[b - 1] as int));
            }
        }
        assert(is_ranking(scores, order));
    }
}

/// The addresses of a host table, from the best score down.
pub open spec fn ranked_addresses(hosts: Seq<HostTotal>) -> Seq<Addr> {
    ranking(scores(hosts)).map_values(|i: usize| hosts[i as int].addr)
}

/// List the addresses of a host table from the best score down.
pub fn rank_hosts(hosts: &Vec<HostTotal>) -> (r: Vec<Addr>)
    requires
        all_numbers(scores(hosts@)),
    ensures
        r@ == ranked_addresses(hosts@),
        is_ranking(scores(hosts@), ranking(scores(hosts@))),
        r@.len() == hosts@.len(),
        forall|k: int| 0 <= k < r@.len() ==> addresses(hosts@).contains(#[trigger] r@[k]),
{
    let mut list: Vec<Double> = Vec::new();
    let mut i: usize = 0;
    while i < hosts.len()
        invariant
            i <= hosts@.len(),
            list@ == scores(hosts@).take(i as int),
        decreases hosts@.len() - i,
    {
        list.push(hosts[i].score);
        assert(list@ =~= scores(hosts@).take(i + 1));
        i += 1;
    }
    assert(list@ =~= scores(hosts@));
    let order = rank(&list);
    proof {
        lemma_ranking_unique(scores(hosts@), order@, ranking(scores(hosts@)));
    }
    let mut r: Vec<Addr> = Vec::new();
    let mut k: usize = 0;
    while k < order.len()
        invariant
            k <= order@.len(),
            is_ranking(scores(hosts@), order@),
            order@ == ranking(scores(hosts@)),
            r@ == ranked_addresses(hosts@).take(k as int),
            forall|j: int| 0 <= j < k ==> addresses(hosts@).contains(#[trigger] r@[j]),
        decreases order@.len() - k,
    {
        let h = hosts[order[k]];
        assert(addresses(hosts@)[order@[k as int] as int] == h.addr);
        r.push(h.addr);
        assert(r@ =~= ranked_addresses(hosts@).take(k + 1));
        k += 1;
    }
    assert(r@ =~= ranked_addresses(hosts@));
    r
}

/// A ranking is from the best score down: no index comes after one with a lower
/// score, and of two equal scores the one listed first comes first.
pub proof fn lemma_ranking_descends(scores: Seq<Double>, order: Seq<usize>, a: int, b: int)
    requires
        is_ranking(scores, order),
        0 <= a < b < order.len(),
    ensures
        order.len() == scores.len(),
        order[a] < scores.len(),
        order[b] < scores.len(),
        order[a] != order[b],
        scores[order[a] as int].bits >= scores[order[b] as int].bits,
        scores[order[a] as int].bits == scores[order[b] as int].bits ==> order[a] < order[b],
{
    assert(ranks_before(scores, order[a] as int, order[b] as int));
}

/// The ranked addresses are those of all hosts of the table, the busier ones
/// first: of two hosts the one with the higher score stands further ahead.
pub proof fn lemma_busier_ranks_first(hosts: Seq<HostTotal>, i: int, j: int)
    requires
        hosts.len() <= usize::MAX,
        distinct_hosts(hosts),
        0 <= i < hosts.len(),
        0 <= j < hosts.len(),
        hosts[i].score.bits > hosts[j].score.bits,
    ensures
        ranked_addresses(hosts).len() == hosts.len(),
        exists|a: int, b: int|
            0 <= a < b < hosts.len() && #[trigger] ranked_addresses(hosts)[a] == hosts[i].addr
                && #[trigger] ranked_addresses(hosts)[b] == hosts[j].addr,
        forall|k: int|
            0 <= k < hosts.len() ==> addresses(hosts).contains(
                #[trigger] ranked_addresses(hosts)[k],
            ),
{
    let list = scores(hosts);
    let order = ranking(list);
    lemma_ranking_exists(list);
    lemma_ranking_complete(list, order, i);
    lemma_ranking_complete(list, order, j);
    let a = choose|a: int| 0 <= a < order.len() && order[a] == i;
    let b = choose|b: int| 0 <= b < order.len() && order[b] == j;
    assert(list[i] == hosts[i].score && list[j] == hosts[j].score);
    if b < a {
        lemma_ranking_descends(list, order, b, a);
    }
    assert(ranked_addresses(hosts)[a] == hosts[i].addr);
    assert(ranked_addresses(hosts)[b] == hosts[j].addr);
    assert forall|k: int| 0 <= k < hosts.len() implies addresses(hosts).contains(
        #[trigger] ranked_addresses(hosts)[k],
    ) by {
        assert(order[k] < list.len());
        assert(addresses(hosts)[order[k] as int] == ranked_addresses(hosts)[k]);
    }
}

proof fn lemma_ranking_prefix(scores: Seq<Double>, first: Seq<usize>, second: Seq<usize>, k: int)
    requires
        is_ranking(scores, first),
        is_ranking(scores, second),
        0 <= k < first.len(),
    ensures
        first[k] == second[k],
    decreases k,
{
    assert forall|j: int| 0 <= j < k implies first[j] == second[j] by {
        lemma_ranking_prefix(scores, first, second, j);
    }
    if first[k] != second[k] {
        lemma_ranking_complete(scores, second, first[k] as int);
        let a = choose|a: int| 0 <= a < second.len() && second[a] == first[k] as int;
        lemma_ranking_complete(scores, first, second[k] as int);
        let b = choose|b: int| 0 <= b < first.len() && first[b] == second[k] as int;
        if a < k {
            assert(first[a] == first[k]);
            assert(ranks_before(scores, first[a] as int, first[k] as int));
        } else if b < k {
            assert(second[b] == second[k]);
            assert(ranks_before(scores, second[b] as int, second[k] as int));
        } else {
            assert(ranks_before(scores, second[k] as int, second[a] as int));
            assert(ranks_before(scores, first[k] as int, first[b] as int));
        }
    }
}

// ---------------------------------------------------------------- slots

/// Whether no host occupies two slots.
pub open spec fn distinct_slots(slots: Seq<Option<Addr>>) -> bool {
    forall|i: int, j: int|
        0 <= i < j < slots.len() && slots[i] is Some ==> #[trigger] slots[i] != #[trigger] slots[j]
}

/// The slots after every occupant that is not in `keep` has left.
pub open spec fn evicted(slots: Seq<Option<Addr>>, keep: Seq<Addr>) -> Seq<Option<Addr>> {
    slots.map_values(
        |slot: Option<Addr>|
            match slot {
                Some(a) => if keep.contains(a) {
                    Some(a)
                } else {
                    None
                },
                None => None,
            },
    )
}

/// The slots after `a` has taken the first free one, if it has none yet and
/// there is a free one.
pub open spec fn seated_one(slots: Seq<Option<Addr>>, a: Addr) -> Seq<Option<Addr>> {
    if slots.contains(Some(a)) {
        slots
    } else {
        match slots.index_of_first(None) {
            Some(i) => slots.update(i, Some(a)),
            None => slots,
        }
    }
}

/// The slots after each of `top`, in order, has been seated.
pub open spec fn seated(slots: Seq<Option<Addr>>, top: Seq<Addr>) -> Seq<Option<Addr>>
    decreases top.len(),
{
    if top.len() == 0 {
        slots
    } else {
        seated_one(seated(slots, top.drop_last()), top.last())
    }
}

/// The first `n` of a ranking, or all of it if it is shorter.
pub open spec fn best(ranked: Seq<Addr>, n: nat) -> Seq<Addr> {
    if ranked.len() < n {
        ranked
    } else {
        ranked.take(n as int)
    }
}

/// The slots after a refresh: occupants outside the best `2 * n` leave, then the
/// best `n` are seated.
pub open spec fn refreshed(slots: Seq<Option<Addr>>, ranked: Seq<Addr>, n: nat) -> Seq<Option<Addr>> {
    seated(evicted(slots, best(ranked, 2 * n)), best(ranked, n))
}

/// The best of a ranking are its head: as many as asked for, or all.
pub proof fn lemma_best_is_head(ranked: Seq<Addr>, n: nat)
    ensures
        n <= ranked.len() ==> best(ranked, n).len() == n,
        n > ranked.len() ==> best(ranked, n).len() == ranked.len(),
        forall|i: int| 0 <= i < best(ranked, n).len() ==> #[trigger] best(ranked, n)[i] == ranked[i],
{
}

/// The index of the first slot with this content.
pub fn find_slot(slots: &Vec<Option<Addr>>, slot: Option<Addr>) -> (r: Option<usize>)
    ensures
        slots@.index_of_first(slot) == (match r {
            Some(i) => Some(i as int),
            None => None,
        }),
        r matches Some(i) ==> i < slots@.len() && slots@[i as int] == slot,
        r is None <==> !slots@.contains(slot),
{
    proof {
        slots@.index_of_first_ensures(slot);
    }
    let mut i: usize = 0;
    while i < slots.len()
        invariant
            i <= slots@.len(),
            forall|j: int| 0 <= j < i ==> slots@[j] != slot,
            match slots@.index_of_first(slot) {
                Some(k) => 0 <= k < slots@.len() && slots@[k] == slot && forall|j: int|
                    0 <= j < k ==> slots@[j] != slot,
                None => !slots@.contains(slot),
            },
        decreases slots@.len() - i,
    {
        let same = match (slots[i], slot) {
            (Some(a), Some(b)) => a == b,
            (None, None) => true,
            _ => false,
        };
        if same {
            assert(slots@[i as int] == slot);
            return Some(i);
        }
        i += 1;
    }
    None
}

fn in_best(ranked: &Vec<Addr>, n: usize, a: Addr) -> (r: bool)
    ensures
        r == best(ranked@, n as nat).contains(a),
{
    let m: usize = if ranked.len() < n {
        ranked.len()
    } else {
        n
    };
    let ghost head = best(ranked@, n as nat);
    assert(head =~= ranked@.take(m as int));
    let mut i: usize = 0;
    while i < m
        invariant
            i <= m <= ranked@.len(),
            head == best(ranked@, n as nat),
            head == ranked@.take(m as int),
            forall|j: int| 0 <= j < i ==> head[j] != a,
        decreases m - i,
    {
        if ranked[i] == a {
            assert(head[i as int] == a);
            return true;
        }
        i += 1;
    }
    false
}

/// Refresh the slots from a ranking. The result says whether anything changed.
pub fn refresh_slots(slots: &mut Vec<Option<Addr>>, ranked: &Vec<Addr>, n: usize) -> (changed: bool)
    requires
        2 * n <= usize::MAX,
    ensures
        final(slots)@ == refreshed(old(slots)@, ranked@, n as nat),
        changed == (final(slots)@ != old(slots)@),
{
    let ghost start = slots@;
    let ghost keep = best(ranked@, 2 * n as nat);
    let mut changed = false;
    let mut i: usize = 0;
    while i < slots.len()
        invariant
            i <= slots@.len(),
            start == old(slots)@,
            slots@.len() == start.len(),
            2 * n <= usize::MAX,
            keep == best(ranked@, 2 * n as nat),
            forall|j: int| 0 <= j < i ==> slots@[j] == evicted(start, keep)[j],
            forall|j: int| i <= j < slots@.len() ==> slots@[j] == start[j],
            changed == exists|j: int| 0 <= j < i && evicted(start, keep)[j] != start[j],
        decreases slots@.len() - i,
    {
        let ghost changed_before = changed;
        if let Some(a) = slots[i] {
            if !in_best(ranked, 2 * n, a) {
                slots.set(i, None);
                changed = true;
                assert(evicted(start, keep)[i as int] != start[i as int]);
            }
        }
        assert(slots@[i as int] == evicted(start, keep)[i as int]);
        proof {
            if changed_before {
                let j = choose|j: int| 0 <= j < i && evicted(start, keep)[j] != start[j];
                assert(evicted(start, keep)[j] != start[j]);
            }
        }
        i += 1;
    }
    let ghost thinned = evicted(start, keep);
    assert(slots@ =~= thinned);
    let ghost left = changed;
    assert(left == (thinned != start)) by {
        if !left {
            assert(thinned =~= start);
        }
    }
    let m: usize = if ranked.len() < n {
        ranked.len()
    } else {
        n
    };
    let ghost top = best(ranked@, n as nat);
    assert(top =~= ranked@.take(m as int));
    let mut k: usize = 0;
    while k < m
        invariant
            k <= m <= ranked@.len(),
            top == ranked@.take(m as int),
            slots@.len() == start.len(),
            slots@ == seated(thinned, top.take(k as int)),
            changed == (left || slots@ != thinned),
        decreases m - k,
    {
        let a = ranked[k];
        assert(top.take(k + 1).drop_last() =~= top.take(k as int));
        assert(top.take(k + 1).last() == a);
        let ghost before = slots@;
        proof {
            lemma_seated_keeps(thinned, top.take(k as int));
        }
        match find_slot(slots, Some(a)) {
            Some(_) => {
                assert(before.contains(Some(a)));
            },
            None => {
                match find_slot(slots, None) {
                    Some(free) => {
                        slots.set(free, Some(a));
                        changed = true;
                        assert(thinned[free as int] is None) by {
                            if thinned[free as int] is Some {
                                assert(before[free as int] == thinned[free as int]);
                            }
                        }
                        assert(slots@[free as int] != thinned[free as int]);
                    },
                    None => {},
                }
            },
        }
        k += 1;
    }
    assert(top.take(m as int) =~= top);
    proof {
        lemma_refresh_changes(start, ranked@, n as nat);
    }
    changed
}

/// Seating a host leaves every occupied slot as it is, and fills a free one only
/// with that host.
proof fn lemma_seated_one(slots: Seq<Option<Addr>>, a: Addr)
    ensures
        seated_one(slots, a).len() == slots.len(),
        forall|i: int|
            0 <= i < slots.len() ==> (#[trigger] seated_one(slots, a)[i] == slots[i] || (slots[i] is None
                && seated_one(slots, a)[i] == Some(a))),
        distinct_slots(slots) ==> distinct_slots(seated_one(slots, a)),
        seated_one(slots, a).contains(Some(a)) || (forall|i: int|
            0 <= i < slots.len() ==> seated_one(slots, a)[i] is Some),
{
    slots.index_of_first_ensures(None);
    match slots.index_of_first(None) {
        Some(i) => {
            if !slots.contains(Some(a)) {
                let after = slots.update(i, Some(a));
                assert(after[i] == Some(a));
                if distinct_slots(slots) {
                    assert forall|x: int, y: int|
                        0 <= x < y < after.len() && after[x] is Some implies #[trigger] after[x]
                        != #[trigger] after[y] by {
                        if x == i {
                            assert(after[y] == slots[y]);
                            assert(slots[y] != Some(a));
                        } else if y == i {
                            assert(after[x] == slots[x]);
                            assert(slots[x] != Some(a));
                        } else {
                            assert(after[x] == slots[x] && after[y] == slots[y]);
                        }
                    }
                }
            }
        },
        None => {
            assert forall|i: int| 0 <= i < slots.len() implies slots[i] is Some by {
                if slots[i] is None {
                    assert(slots.contains(None));
                }
            }
        },
    }
}

/// Seating hosts leaves every occupied slot as it is, and fills free ones only
/// with those hosts.
proof fn lemma_seated_keeps(slots: Seq<Option<Addr>>, top: Seq<Addr>)
    ensures
        seated(slots, top).len() == slots.len(),
        forall|i: int|
            0 <= i < slots.len() ==> (#[trigger] seated(slots, top)[i] == slots[i] || (slots[i] is None
                && seated(slots, top)[i] is Some && top.contains(seated(slots, top)[i]->0))),
        distinct_slots(slots) ==> distinct_slots(seated(slots, top)),
    decreases top.len(),
{
    if top.len() > 0 {
        let rest = top.drop_last();
        lemma_seated_keeps(slots, rest);
        let mid = seated(slots, rest);
        lemma_seated_one(mid, top.last());
        assert forall|i: int| 0 <= i < slots.len() implies (#[trigger] seated(slots, top)[i] == slots[i]
            || (slots[i] is None && seated(slots, top)[i] is Some && top.contains(
            seated(slots, top)[i]->0,
        ))) by {
            assert(seated(slots, top)[i] == seated_one(mid, top.last())[i]);
            assert(mid[i] == slots[i] || (slots[i] is None && mid[i] is Some && rest.contains(mid[i]->0)));
            if seated(slots, top)[i] != mid[i] {
                assert(top[top.len() - 1] == top.last());
            } else if mid[i] != slots[i] {
                let j = choose|j: int| 0 <= j < rest.len() && rest[j] == mid[i]->0;
                assert(top[j] == mid[i]->0);
            }
        }
    }
}

proof fn lemma_best_prefix(ranked: Seq<Addr>, n: nat, a: Addr)
    requires
        best(ranked, n).contains(a),
    ensures
        best(ranked, 2 * n).contains(a),
{
    let i = choose|i: int| 0 <= i < best(ranked, n).len() && best(ranked, n)[i] == a;
    assert(best(ranked, 2 * n)[i] == a);
}

proof fn lemma_refresh_changes(slots: Seq<Option<Addr>>, ranked: Seq<Addr>, n: nat)
    ensures
        (refreshed(slots, ranked, n) != slots) == (evicted(slots, best(ranked, 2 * n)) != slots
            || refreshed(slots, ranked, n) != evicted(slots, best(ranked, 2 * n))),
{
    let keep = best(ranked, 2 * n);
    let thinned = evicted(slots, keep);
    let after = refreshed(slots, ranked, n);
    lemma_seated_keeps(thinned, best(ranked, n));
    if thinned != slots {
        assert(exists|i: int| 0 <= i < slots.len() && thinned[i] != slots[i]) by {
            if forall|i: int| 0 <= i < slots.len() ==> thinned[i] == slots[i] {
                assert(thinned =~= slots);
            }
        }
        let i = choose|i: int| 0 <= i < slots.len() && thinned[i] != slots[i];
        assert(slots[i] is Some && !keep.contains(slots[i]->0) && thinned[i] is None);
        if after[i] == slots[i] {
            assert(after[i] != thinned[i]);
            lemma_best_prefix(ranked, n, after[i]->0);
        }
    }
}

/// Bars keep their positions: an occupant that is still among the best `2 * n`
/// stays in its slot.
pub proof fn lemma_refresh_stable(slots: Seq<Option<Addr>>, ranked: Seq<Addr>, n: nat, i: int)
    requires
        0 <= i < slots.len(),
        slots[i] is Some,
        best(ranked, 2 * n).contains(slots[i]->0),
    ensures
        refreshed(slots, ranked, n).len() == slots.len(),
        refreshed(slots, ranked, n)[i] == slots[i],
{
    lemma_seated_keeps(evicted(slots, best(ranked, 2 * n)), best(ranked, n));
}

/// After a refresh no host occupies two slots, if none did before.
pub proof fn lemma_refresh_distinct(slots: Seq<Option<Addr>>, ranked: Seq<Addr>, n: nat)
    requires
        distinct_slots(slots),
    ensures
        distinct_slots(refreshed(slots, ranked, n)),
{
    let thinned = evicted(slots, best(ranked, 2 * n));
    assert forall|i: int, j: int| 0 <= i < j < thinned.len() && thinned[i] is Some implies #[trigger] thinned[i]
        != #[trigger] thinned[j] by {
        assert(thinned[i] == slots[i]);
        assert(slots[i] != slots[j]);
    }
    lemma_seated_keeps(thinned, best(ranked, n));
}

/// After a refresh every occupant is among the best `2 * n`: a host that dropped
/// out of them has lost its slot.
pub proof fn lemma_refresh_ranked(slots: Seq<Option<Addr>>, ranked: Seq<Addr>, n: nat, i: int)
    requires
        0 <= i < slots.len(),
    ensures
        refreshed(slots, ranked, n).len() == slots.len(),
        refreshed(slots, ranked, n)[i] matches Some(a) ==> best(ranked, 2 * n).contains(a),
{
    let thinned = evicted(slots, best(ranked, 2 * n));
    lemma_seated_keeps(thinned, best(ranked, n));
    let after = refreshed(slots, ranked, n);
    if after[i] is Some && after[i] != thinned[i] {
        lemma_best_prefix(ranked, n, after[i]->0);
    }
}

/// A newcomer is one of the best `n`, and has taken a gap: its slot was free, or
/// its occupant has dropped out of the best `2 * n`.
pub proof fn lemma_refresh_newcomers(slots: Seq<Option<Addr>>, ranked: Seq<Addr>, n: nat, i: int)
    requires
        0 <= i < slots.len(),
        refreshed(slots, ranked, n)[i] is Some,
        refreshed(slots, ranked, n)[i] != slots[i],
    ensures
        best(ranked, n).contains(refreshed(slots, ranked, n)[i]->0),
        slots[i] matches Some(a) ==> !best(ranked, 2 * n).contains(a),
{
    lemma_seated_keeps(evicted(slots, best(ranked, 2 * n)), best(ranked, n));
}

/// Whether a host is among the first `n` of a ranking.
pub open spec fn among_first(ranked: Seq<Addr>, n: nat, a: Addr) -> bool {
    exists|k: int| 0 <= k < ranked.len() && k < n && #[trigger] ranked[k] == a
}

/// What becomes of each slot in a refresh: it keeps its occupant, it is left free
/// by one that dropped out of the first `2 * n` of the ranking, or a newcomer
/// from the first `n` sits in it. No slot is added or lost.
pub proof fn lemma_refresh_slot(slots: Seq<Option<Addr>>, ranked: Seq<Addr>, n: nat, i: int)
    requires
        0 <= i < slots.len(),
    ensures
        ({
            let after = refreshed(slots, ranked, n);
            &&& after.len() == slots.len()
            &&& slots[i] matches Some(a) ==> among_first(ranked, 2 * n, a) ==> after[i] == Some(a)
            &&& slots[i] matches Some(a) ==> !among_first(ranked, 2 * n, a) ==> after[i] != Some(a)
            &&& after[i] matches Some(a) ==> after[i] == slots[i] || among_first(ranked, n, a)
        }),
{
    let keep = best(ranked, 2 * n);
    let top = best(ranked, n);
    let thinned = evicted(slots, keep);
    let after = refreshed(slots, ranked, n);
    lemma_seated_keeps(thinned, top);
    lemma_best_is_head(ranked, 2 * n);
    lemma_best_is_head(ranked, n);
    assert forall|a: Addr| among_first(ranked, 2 * n, a) implies #[trigger] keep.contains(a) by {
        let k = choose|k: int| 0 <= k < ranked.len() && k < 2 * n && #[trigger] ranked[k] == a;
        assert(keep[k] == a);
    }
    assert forall|a: Addr| #[trigger] keep.contains(a) implies among_first(ranked, 2 * n, a) by {
        let k = choose|k: int| 0 <= k < keep.len() && keep[k] == a;
        assert(ranked[k] == a);
    }
    if after[i] is Some && after[i] != slots[i] {
        let a = after[i]->0;
        assert(top.contains(a));
        let k = choose|k: int| 0 <= k < top.len() && top[k] == a;
        assert(ranked[k] == a);
    }
    if slots[i] is Some && !among_first(ranked, 2 * n, slots[i]->0) && after[i] == slots[i] {
        assert(!keep.contains(slots[i]->0));
        assert(thinned[i] is None);
        lemma_best_prefix(ranked, n, slots[i]->0);
    }
}

/// The better newcomer is seated first: if one of the best `n` has newly got a
/// slot, every better one has a slot too.
pub proof fn lemma_refresh_better_first(
    slots: Seq<Option<Addr>>,
    ranked: Seq<Addr>,
    n: nat,
    i: int,
    j: int,
)
    requires
        0 <= i < j < n,
        j < ranked.len(),
        ranked.no_duplicates(),
        !slots.contains(Some(ranked[j])),
        refreshed(slots, ranked, n).contains(Some(ranked[j])),
    ensures
        refreshed(slots, ranked, n).contains(Some(ranked[i])),
{
    let thinned = evicted(slots, best(ranked, 2 * n));
    let top = best(ranked, n);
    lemma_best_is_head(ranked, n);
    assert forall|x: int| 0 <= x < thinned.len() implies thinned[x] != Some(ranked[j]) by {
        if thinned[x] == Some(ranked[j]) {
            assert(slots[x] == Some(ranked[j]));
        }
    }
    assert forall|x: int, y: int| 0 <= x < top.len() && 0 <= y < top.len() && x != y implies top[x]
        != top[y] by {
        assert(ranked[x] != ranked[y]);
    }
    lemma_seated_in_order(thinned, top, i, j);
}

proof fn lemma_seated_in_order(slots: Seq<Option<Addr>>, top: Seq<Addr>, i: int, j: int)
    requires
        0 <= i < j < top.len(),
        top.no_duplicates(),
        !slots.contains(Some(top[j])),
        seated(slots, top).contains(Some(top[j])),
    ensures
        seated(slots, top).contains(Some(top[i])),
    decreases top.len(),
{
    let rest = top.drop_last();
    let mid = seated(slots, rest);
    let after = seated(slots, top);
    lemma_seated_keeps(slots, rest);
    lemma_seated_one(mid, top.last());
    if j == top.len() - 1 {
        assert(!mid.contains(Some(top[j]))) by {
            if mid.contains(Some(top[j])) {
                let k = choose|k: int| 0 <= k < mid.len() && mid[k] == Some(top[j]);
                if mid[k] == slots[k] {
                    assert(slots.contains(Some(top[j])));
                }
                let x = choose|x: int| 0 <= x < rest.len() && rest[x] == top[j];
                assert(top[x] == top[j]);
            }
        }
        mid.index_of_first_ensures(None);
        assert(rest[i] == top[i]);
        assert(rest.contains(top[i]));
        lemma_seated_fills(slots, rest, top[i]);
    } else {
        let k = choose|k: int| 0 <= k < after.len() && after[k] == Some(top[j]);
        assert(after[k] == mid[k]) by {
            if after[k] != mid[k] {
                assert(top[top.len() - 1] == top[j]);
            }
        }
        assert(mid.contains(Some(rest[j])));
        assert forall|x: int, y: int| 0 <= x < rest.len() && 0 <= y < rest.len() && x != y implies rest[x]
            != rest[y] by {
            assert(top[x] != top[y]);
        }
        lemma_seated_in_order(slots, rest, i, j);
    }
    let k = choose|k: int| 0 <= k < mid.len() && mid[k] == Some(top[i]);
    assert(mid.contains(Some(top[i])));
    assert(after[k] == Some(top[i]));
}

/// Newcomers sit in the order of their ranking: of two that have taken gaps, the
/// better one sits further left.
pub proof fn lemma_refresh_newcomer_order(
    slots: Seq<Option<Addr>>,
    ranked: Seq<Addr>,
    n: nat,
    i: int,
    j: int,
)
    requires
        0 <= i < j < slots.len(),
        ({
            let after = refreshed(slots, ranked, n);
            &&& after[i] is Some && after[i] != slots[i]
            &&& after[j] is Some && after[j] != slots[j]
        }),
    ensures
        exists|x: int, y: int|
            0 <= x < y < ranked.len() && y < n && Some(#[trigger] ranked[x]) == refreshed(
                slots,
                ranked,
                n,
            )[i] && Some(#[trigger] ranked[y]) == refreshed(slots, ranked, n)[j],
{
    let thinned = evicted(slots, best(ranked, 2 * n));
    let top = best(ranked, n);
    let after = refreshed(slots, ranked, n);
    lemma_best_is_head(ranked, n);
    lemma_seated_keeps(thinned, top);
    lemma_seated_order(thinned, top, i, j);
    let (x, y) = choose|x: int, y: int|
        0 <= x < y < top.len() && Some(#[trigger] top[x]) == after[i] && Some(#[trigger] top[y])
            == after[j];
    assert(ranked[x] == top[x] && ranked[y] == top[y]);
}

proof fn lemma_seated_order(slots: Seq<Option<Addr>>, top: Seq<Addr>, i: int, j: int)
    requires
        0 <= i < j < slots.len(),
        slots[i] is None,
        slots[j] is None,
        seated(slots, top)[i] is Some,
        seated(slots, top)[j] is Some,
    ensures
        exists|x: int, y: int|
            0 <= x < y < top.len() && Some(#[trigger] top[x]) == seated(slots, top)[i] && Some(
                #[trigger] top[y],
            ) == seated(slots, top)[j],
    decreases top.len(),
{
    let rest = top.drop_last();
    let mid = seated(slots, rest);
    let after = seated(slots, top);
    lemma_seated_keeps(slots, rest);
    lemma_seated_one(mid, top.last());
    assert(after == seated_one(mid, top.last()));
    if mid[i] is None {
        lemma_seated_from_left(slots, rest, i, j);
        assert(mid[j] is None);
        mid.index_of_first_ensures(None);
    } else if mid[j] is None {
        assert(after[i] == mid[i]);
        assert(rest.contains(mid[i]->0));
        let x = choose|x: int| 0 <= x < rest.len() && rest[x] == mid[i]->0;
        assert(top[x] == rest[x]);
        assert(Some(top[top.len() - 1]) == after[j]);
        assert(Some(top[x]) == after[i]);
    } else {
        lemma_seated_order(slots, rest, i, j);
        let (x, y) = choose|x: int, y: int|
            0 <= x < y < rest.len() && Some(#[trigger] rest[x]) == mid[i] && Some(#[trigger] rest[y])
                == mid[j];
        assert(after[i] == mid[i] && after[j] == mid[j]);
        assert(Some(top[x]) == after[i] && Some(top[y]) == after[j]);
    }
}

/// Gaps are filled from the left: no newcomer sits behind a slot that is free.
pub proof fn lemma_refresh_from_left(slots: Seq<Option<Addr>>, ranked: Seq<Addr>, n: nat, i: int, j: int)
    requires
        0 <= i < j < slots.len(),
        refreshed(slots, ranked, n)[i] is None,
    ensures
        refreshed(slots, ranked, n)[j] is None || refreshed(slots, ranked, n)[j] == slots[j],
{
    let thinned = evicted(slots, best(ranked, 2 * n));
    lemma_seated_keeps(thinned, best(ranked, n));
    lemma_seated_from_left(thinned, best(ranked, n), i, j);
}

proof fn lemma_seated_from_left(slots: Seq<Option<Addr>>, top: Seq<Addr>, i: int, j: int)
    requires
        0 <= i < j < slots.len(),
        seated(slots, top)[i] is None,
    ensures
        seated(slots, top)[j] == slots[j],
    decreases top.len(),
{
    if top.len() > 0 {
        let mid = seated(slots, top.drop_last());
        lemma_seated_keeps(slots, top.drop_last());
        lemma_seated_one(mid, top.last());
        mid.index_of_first_ensures(None);
        assert(seated(slots, top)[i] == seated_one(mid, top.last())[i]);
        assert(mid[i] is None);
        lemma_seated_from_left(slots, top.drop_last(), i, j);
    }
}

/// After a refresh each of the best `n` has a slot, unless all slots are taken.
pub proof fn lemma_refresh_fills(slots: Seq<Option<Addr>>, ranked: Seq<Addr>, n: nat, a: Addr)
    requires
        best(ranked, n).contains(a),
    ensures
        refreshed(slots, ranked, n).contains(Some(a)) || (forall|i: int|
            0 <= i < slots.len() ==> refreshed(slots, ranked, n)[i] is Some),
{
    lemma_seated_fills(evicted(slots, best(ranked, 2 * n)), best(ranked, n), a);
}

proof fn lemma_seated_fills(slots: Seq<Option<Addr>>, top: Seq<Addr>, a: Addr)
    requires
        top.contains(a),
    ensures
        seated(slots, top).contains(Some(a)) || (forall|i: int|
            0 <= i < slots.len() ==> seated(slots, top)[i] is Some),
    decreases top.len(),
{
    let rest = top.drop_last();
    let mid = seated(slots, rest);
    lemma_seated_keeps(slots, rest);
    lemma_seated_one(mid, top.last());
    let after = seated(slots, top);
    if a != top.last() {
        let j = choose|j: int| 0 <= j < top.len() && top[j] == a;
        assert(rest[j] == a);
        lemma_seated_fills(slots, rest, a);
        if mid.contains(Some(a)) {
            let k = choose|k: int| 0 <= k < mid.len() && mid[k] == Some(a);
            assert(after[k] == Some(a));
        } else {
            assert forall|i: int| 0 <= i < slots.len() implies after[i] is Some by {
                assert(mid[i] is Some);
            }
        }
    }
}

} // verus!
