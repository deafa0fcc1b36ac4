//! Properties that hold of every dictionary, every registry and every
//! argument encoding.

use crate::bytes::{
    be_bytes, lemma_pow256_small, lemma_signed_round_trip, lemma_unsigned_round_trip, pow256,
    signed_bytes,
};
use crate::ulog_argument::ULogArgument;
use crate::ulog_string::ULogString;
use crate::decoder::registry_wf;
use crate::dictionary::{
    arg_matches, arguments_from, is_order_for, key_lt, member_order, members_spec, severity_spec,
    string_spec, takes_arguments,
};
use crate::ulog_message::ULogMessage;
use crate::severity::SeverityLevel;
use crate::ulog_system_info::ULogSystemInfo;
use vstd::prelude::*;

verus! {

/// Every argument slot goes to exactly one message, and appears there
/// exactly once: where each message's slots are listed as `pair_arguments`
/// lists them, slot `k` stands at exactly one place of one list.
pub proof fn lemma_each_argument_in_exactly_one_message(
    owners: Seq<usize>,
    seqs: Seq<usize>,
    orders: Seq<Seq<usize>>,
    k: int,
)
    requires
        owners.len() == seqs.len(),
        owners.len() <= usize::MAX,
        orders.len() <= usize::MAX,
        forall|i: int| 0 <= i < orders.len() ==> is_order_for(#[trigger] orders[i], owners, seqs, i as usize),
        forall|j: int| 0 <= j < owners.len() ==> (#[trigger] owners[j]) < orders.len(),
        0 <= k < owners.len(),
    ensures
        exists|i: int, j: int| 0 <= i < orders.len() && 0 <= j < orders[i].len() && orders[i][j] == k,
        forall|i1: int, j1: int, i2: int, j2: int|
            0 <= i1 < orders.len() && 0 <= j1 < orders[i1].len() && 0 <= i2 < orders.len() && 0 <= j2
                < orders[i2].len() && #[trigger] orders[i1][j1] == k && #[trigger] orders[i2][j2] == k
                ==> i1 == i2 && j1 == j2,
{
    let o = owners[k] as int;
    assert(is_order_for(orders[o], owners, seqs, o as usize));
    assert(orders[o].contains(k as usize));
    assert(exists|j: int| 0 <= j < orders[o].len() && orders[o][j] == k as usize);
    let j = choose|j: int| 0 <= j < orders[o].len() && orders[o][j] == k as usize;
    assert(orders[o][j] == k);
    assert forall|i1: int, j1: int, i2: int, j2: int|
        0 <= i1 < orders.len() && 0 <= j1 < orders[i1].len() && 0 <= i2 < orders.len() && 0 <= j2
            < orders[i2].len() && #[trigger] orders[i1][j1] == k && #[trigger] orders[i2][j2] == k
            implies i1 == i2 && j1 == j2 by {
        assert(is_order_for(orders[i1], owners, seqs, i1 as usize));
        assert(is_order_for(orders[i2], owners, seqs, i2 as usize));
        assert(owners[orders[i1][j1] as int] == i1);
        assert(owners[orders[i2][j2] as int] == i2);
        if j1 < j2 {
            assert(key_lt(seqs, orders[i1][j1], orders[i1][j2]));
        } else if j2 < j1 {
            assert(key_lt(seqs, orders[i1][j2], orders[i1][j1]));
        }
    }
}

/// The slots owned by message `i`.
pub open spec fn owned_set(owners: Seq<usize>, i: int) -> Set<usize> {
    Set::new(|k: usize| (k as int) < owners.len() && owners[k as int] as int == i)
}

/// The slots owned by one of the first `m` messages.
pub open spec fn owned_below(owners: Seq<usize>, m: int) -> Set<usize> {
    Set::new(|k: usize| (k as int) < owners.len() && (owners[k as int] as int) < m)
}

/// The number of slots that the first `m` lists hold together.
pub open spec fn total_len(orders: Seq<Seq<usize>>, m: int) -> nat
    decreases m,
{
    if m <= 0 {
        0
    } else {
        total_len(orders, m - 1) + orders[m - 1].len()
    }
}

proof fn lemma_index_set(n: nat)
    requires
        n <= usize::MAX + 1,
    ensures
        Set::new(|k: usize| (k as int) < n).finite(),
        Set::new(|k: usize| (k as int) < n).len() == n,
{
    let r = Seq::new(n, |k: int| k as usize);
    assert(r.no_duplicates());
    r.unique_seq_to_set();
    assert(r.to_set() =~= Set::new(|k: usize| (k as int) < n)) by {
        assert forall|k: usize| (k as int) < n implies r.to_set().contains(k) by {
            assert(r[k as int] == k);
        }
    }
}

proof fn lemma_order_len(owners: Seq<usize>, seqs: Seq<usize>, order: Seq<usize>, i: int)
    requires
        0 <= i <= usize::MAX,
        owners.len() <= usize::MAX,
        is_order_for(order, owners, seqs, i as usize),
    ensures
        owned_set(owners, i).finite(),
        order.len() == owned_set(owners, i).len(),
{
    assert(order.no_duplicates()) by {
        assert forall|a: int, b: int| 0 <= a < order.len() && 0 <= b < order.len() && a != b implies order[a] != order[b] by {
            if a < b {
                assert(key_lt(seqs, order[a], order[b]));
            } else {
                assert(key_lt(seqs, order[b], order[a]));
            }
        }
    }
    order.unique_seq_to_set();
    assert(order.to_set() =~= owned_set(owners, i)) by {
        assert forall|k: usize| owned_set(owners, i).contains(k) implies order.to_set().contains(k) by {
            assert(owners[k as int] == i as usize);
        }
    }
    vstd::seq_lib::seq_to_set_is_finite(order);
}

proof fn lemma_total_len(owners: Seq<usize>, seqs: Seq<usize>, orders: Seq<Seq<usize>>, m: int)
    requires
        0 <= m <= orders.len(),
        owners.len() == seqs.len(),
        owners.len() <= usize::MAX,
        orders.len() <= usize::MAX,
        forall|i: int| 0 <= i < orders.len() ==> is_order_for(#[trigger] orders[i], owners, seqs, i as usize),
    ensures
        owned_below(owners, m).finite(),
        total_len(orders, m) == owned_below(owners, m).len(),
    decreases m,
{
    if m == 0 {
        assert(owned_below(owners, 0) =~= Set::<usize>::empty());
    } else {
        lemma_total_len(owners, seqs, orders, m - 1);
        lemma_order_len(owners, seqs, orders[m - 1], m - 1);
        assert(owned_below(owners, m) =~= owned_below(owners, m - 1) + owned_set(owners, m - 1));
        assert(owned_below(owners, m - 1).disjoint(owned_set(owners, m - 1)));
        vstd::set_lib::lemma_set_disjoint_lens(owned_below(owners, m - 1), owned_set(owners, m - 1));
    }
}

/// Counted over all messages, the lists hold exactly as many slots as there
/// are argument members.
pub proof fn lemma_argument_count(owners: Seq<usize>, seqs: Seq<usize>, orders: Seq<Seq<usize>>)
    requires
        owners.len() == seqs.len(),
        owners.len() <= usize::MAX,
        orders.len() <= usize::MAX,
        forall|i: int| 0 <= i < orders.len() ==> is_order_for(#[trigger] orders[i], owners, seqs, i as usize),
        forall|j: int| 0 <= j < owners.len() ==> (#[trigger] owners[j]) < orders.len(),
    ensures
        total_len(orders, orders.len() as int) == owners.len(),
{
    lemma_total_len(owners, seqs, orders, orders.len() as int);
    lemma_index_set(owners.len());
    assert(owned_below(owners, orders.len() as int) =~= Set::new(|k: usize| (k as int) < owners.len()));
}

/// The slots of each message stand in ascending order of their sequence
/// numbers.
pub proof fn lemma_arguments_in_sequence_order(
    owners: Seq<usize>,
    seqs: Seq<usize>,
    order: Seq<usize>,
    i: usize,
    j: int,
    l: int,
)
    requires
        is_order_for(order, owners, seqs, i),
        0 <= j < l < order.len(),
    ensures
        seqs[order[j] as int] <= seqs[order[l] as int],
{
    assert(key_lt(seqs, order[j], order[l]));
}

/// Across a registry that `register_system` built, no two dictionaries share
/// a system id.
pub proof fn lemma_system_ids_unique(systems: Map<u16, ULogSystemInfo>, a: u16, b: u16)
    requires
        registry_wf(systems),
        systems.contains_key(a),
        systems.contains_key(b),
        a != b,
    ensures
        systems[a].spec_system_id() != systems[b].spec_system_id(),
{
}

proof fn lemma_members_in_range(syms: Seq<(Seq<char>, u64)>, start: u64, end: u64, j: int)
    requires
        0 <= j < members_spec(syms, start, end).len(),
    ensures
        start <= members_spec(syms, start, end)[j].1 < end,
        members_spec(syms, start, end)[j].2 == members_spec(syms, start, end)[j].1 - start,
    decreases syms.len(),
{
    if syms.len() > 0 {
        let prev = members_spec(syms.drop_last(), start, end);
        if j < prev.len() {
            lemma_members_in_range(syms.drop_last(), start, end, j);
        }
    }
}

/// A string's id is its offset from the start of the string sub-section,
/// which fits in 16 bits where the sub-section spans at most 64 KiB.
pub proof fn lemma_string_id_is_offset(syms: Seq<(Seq<char>, u64)>, start: u64, end: u64, j: int)
    requires
        0 <= j < members_spec(syms, start, end).len(),
        string_spec(members_spec(syms, start, end)[j]) is Ok,
        end - start <= 0x10000,
    ensures
        string_spec(members_spec(syms, start, end)[j])->Ok_0.0 == members_spec(syms, start, end)[j].1
            - start,
{
    lemma_members_in_range(syms, start, end, j);
}

/// A message at exactly the end of one severity partition belongs to the
/// next: at the end of `warning` it is a `notice`.
pub proof fn lemma_partition_end_is_next_level(bounds: Seq<u64>)
    requires
        bounds.len() == 9,
        forall|i: int, j: int| 0 <= i < j < 9 ==> bounds[i] < bounds[j],
    ensures
        severity_spec(bounds[4], bounds) == Some(SeverityLevel::Notice),
{
    reveal_with_fuel(crate::dictionary::level_rank_from, 7);
    assert(bounds[0] < bounds[4] && bounds[1] < bounds[4] && bounds[2] < bounds[4] && bounds[3] < bounds[4]);
    assert(bounds[4] < bounds[5]);
}

/// A 3- or 4-byte signed slot reads back every value of its width.
pub proof fn lemma_int32_round_trip(
    size: usize,
    v: int,
    data: Seq<u8>,
    pos: int,
    strings: Map<u16, ULogString>,
    after: ULogArgument,
)
    requires
        3 <= size <= 4,
        -(pow256(size as nat) / 2) <= v < pow256(size as nat) / 2,
        0 <= pos,
        pos + size <= data.len(),
        data.subrange(pos, pos + size) == signed_bytes(v, size as nat),
        (ULogArgument::Int32 { size, value: None }).filled_as(after, data, pos, strings),
    ensures
        (ULogArgument::Int32 { size, value: None }).read_error(data, pos, strings) is None,
        after == (ULogArgument::Int32 { size, value: Some(v as i32) }),
        v as i32 == v,
{
    reveal(ULogArgument::wire_len);
    reveal(ULogArgument::read_error);
    reveal(ULogArgument::filled_as);
    lemma_pow256_small();
    lemma_signed_round_trip(v, size as nat);
}

/// A 5- to 8-byte unsigned slot reads back every value of its width.
pub proof fn lemma_uint64_round_trip(
    size: usize,
    x: nat,
    data: Seq<u8>,
    pos: int,
    strings: Map<u16, ULogString>,
    after: ULogArgument,
)
    requires
        5 <= size <= 8,
        x < pow256(size as nat),
        0 <= pos,
        pos + size <= data.len(),
        data.subrange(pos, pos + size) == be_bytes(x, size as nat),
        (ULogArgument::UInt64 { size, value: None }).filled_as(after, data, pos, strings),
    ensures
        (ULogArgument::UInt64 { size, value: None }).read_error(data, pos, strings) is None,
        after == (ULogArgument::UInt64 { size, value: Some(x as u64) }),
        x as u64 == x,
{
    reveal(ULogArgument::wire_len);
    reveal(ULogArgument::read_error);
    reveal(ULogArgument::filled_as);
    lemma_pow256_small();
    crate::bytes::lemma_pow256_monotone(size as nat, 8);
    lemma_unsigned_round_trip(x, size as nat);
}

/// A four-byte float slot reads back every bit pattern.
pub proof fn lemma_float_round_trip(
    bits: u32,
    data: Seq<u8>,
    pos: int,
    strings: Map<u16, ULogString>,
    after: ULogArgument,
)
    requires
        0 <= pos,
        pos + 4 <= data.len(),
        data.subrange(pos, pos + 4) == be_bytes(bits as nat, 4),
        (ULogArgument::Float { value: None }).filled_as(after, data, pos, strings),
    ensures
        (ULogArgument::Float { value: None }).read_error(data, pos, strings) is None,
        after == (ULogArgument::Float { value: Some(bits) }),
{
    reveal(ULogArgument::wire_len);
    reveal(ULogArgument::read_error);
    reveal(ULogArgument::filled_as);
    lemma_pow256_small();
    lemma_unsigned_round_trip(bits as nat, 4);
}

/// A boolean slot reads a zero byte as false and any other byte as true.
pub proof fn lemma_bool_decode(
    data: Seq<u8>,
    pos: int,
    strings: Map<u16, ULogString>,
    after: ULogArgument,
)
    requires
        0 <= pos < data.len(),
        (ULogArgument::Bool { value: None }).filled_as(after, data, pos, strings),
    ensures
        (ULogArgument::Bool { value: None }).read_error(data, pos, strings) is None,
        after == (ULogArgument::Bool { value: Some(data[pos] != 0) }),
{
    reveal(ULogArgument::wire_len);
    reveal(ULogArgument::read_error);
    reveal(ULogArgument::filled_as);
}

/// The smallest key at or above `v` whose message is declared at `loc` with
/// template `fmt`.
spec fn first_matching_key(map: Map<u16, ULogMessage>, loc: (Seq<char>, usize), fmt: Seq<char>, v: int) -> Option<u16>
    decreases 0x10000 - v,
{
    if v < 0 || v >= 0x10000 {
        None
    } else if map.contains_key(v as u16) && map[v as u16].spec_location() == loc && map[v as u16].spec_format() == fmt {
        Some(v as u16)
    } else {
        first_matching_key(map, loc, fmt, v + 1)
    }
}

proof fn lemma_first_matching_key(map: Map<u16, ULogMessage>, loc: (Seq<char>, usize), fmt: Seq<char>, v: int, k: u16)
    requires
        0 <= v <= k,
        map.contains_key(k),
        map[k].spec_location() == loc,
        map[k].spec_format() == fmt,
    ensures
        first_matching_key(map, loc, fmt, v) matches Some(m) && map.contains_key(m) && map[m].spec_location() == loc
            && map[m].spec_format() == fmt && v <= m && forall|k2: u16|
            v <= k2 && #[trigger] map.contains_key(k2) && map[k2].spec_location() == loc && map[k2].spec_format() == fmt ==> m <= k2,
    decreases 0x10000 - v,
{
    if !(map.contains_key(v as u16) && map[v as u16].spec_location() == loc && map[v as u16].spec_format() == fmt) {
        assert(v < k);
        lemma_first_matching_key(map, loc, fmt, v + 1, k);
        assert forall|k2: u16|
            v <= k2 && #[trigger] map.contains_key(k2) && map[k2].spec_location() == loc && map[k2].spec_format() == fmt
            implies v + 1 <= k2 by {
            if k2 as int == v {
                assert(k2 == v as u16);
            }
        }
    }
}

/// In a loaded dictionary, an argument member that belongs to some message
/// lands in the list of exactly one message: the one with the smallest id
/// among those declared at the member's place with the member's template.
pub proof fn lemma_loaded_argument_in_one_message(
    map: Map<u16, ULogMessage>,
    am: Seq<(Seq<char>, u64, u64)>,
    section: Seq<u8>,
    j: int,
    k: u16,
)
    requires
        arguments_from(map, am, section),
        0 <= j < am.len(),
        map.contains_key(k),
        arg_matches(am, section, j, map[k].spec_location(), map[k].spec_format()),
    ensures
        exists|m: u16, order: Seq<usize>|
            #[trigger] map.contains_key(m) && member_order(order, am, section, map[m].spec_location(), map[m].spec_format(), takes_arguments(map, m))
                && #[trigger] order.contains(j as usize),
        forall|k1: u16, o1: Seq<usize>, k2: u16, o2: Seq<usize>|
            #[trigger] map.contains_key(k1) && #[trigger] map.contains_key(k2) && member_order(o1, am, section, map[k1].spec_location(), map[k1].spec_format(), takes_arguments(map, k1))
                && member_order(o2, am, section, map[k2].spec_location(), map[k2].spec_format(), takes_arguments(map, k2))
                && #[trigger] o1.contains(j as usize) && #[trigger] o2.contains(j as usize) ==> k1 == k2,
{
    let loc = map[k].spec_location();
    let fmt = map[k].spec_format();
    lemma_first_matching_key(map, loc, fmt, 0, k);
    let m = first_matching_key(map, loc, fmt, 0)->Some_0;
    assert(takes_arguments(map, m));
    assert(map.contains_key(m));
    let order = choose|order: Seq<usize>|
        member_order(order, am, section, map[m].spec_location(), map[m].spec_format(), takes_arguments(map, m))
            && map[m].spec_arguments() == #[trigger] crate::dictionary::member_slots(order, am, section);
    assert(arg_matches(am, section, j, map[m].spec_location(), map[m].spec_format()));
    assert(order.contains(j as usize));
    assert forall|k1: u16, o1: Seq<usize>, k2: u16, o2: Seq<usize>|
        #[trigger] map.contains_key(k1) && #[trigger] map.contains_key(k2) && member_order(o1, am, section, map[k1].spec_location(), map[k1].spec_format(), takes_arguments(map, k1))
            && member_order(o2, am, section, map[k2].spec_location(), map[k2].spec_format(), takes_arguments(map, k2))
            && #[trigger] o1.contains(j as usize) && #[trigger] o2.contains(j as usize) implies k1 == k2 by {
        let t1 = choose|t: int| 0 <= t < o1.len() && o1[t] == j as usize;
        let t2 = choose|t: int| 0 <= t < o2.len() && o2[t] == j as usize;
        assert(arg_matches(am, section, o1[t1] as int, map[k1].spec_location(), map[k1].spec_format()));
        assert(arg_matches(am, section, o2[t2] as int, map[k2].spec_location(), map[k2].spec_format()));
        assert(takes_arguments(map, k1));
        assert(takes_arguments(map, k2));
    }
}

} // verus!
