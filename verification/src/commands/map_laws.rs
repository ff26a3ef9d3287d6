//! What a mapping's table says when it is read back, and that it agrees with what is
//! read of the partition.

use crate::commands::map::{
    lemma_prefix_total, linear_params, linear_target, load_request, map_planned, pad_to_eight,
    request_head, target_head, targets_from, zero_target, MapPlan,
};
use crate::commands::read::lemma_chain_bytes;
use crate::encoding::{lemma_u32_stored, lemma_u64_stored, lemma_widths, u32_at, u64_at, zeros};
use crate::error::{Error, Fault};
use crate::format::{Extent, TablesView, LP_TARGET_TYPE_LINEAR, LP_TARGET_TYPE_ZERO};
use crate::reader::data::{extents_of_partition, lemma_sector_total, sector_total};
use crate::reader::extent_stream::{
    chain_data, chain_len, extent_byte, extent_len, lemma_chain_data, lemma_chain_len, ExtentSource,
};
use crate::text::{decimal, lemma_decimal_len, lemma_encode_concat, lemma_encode_len};
use vstd::bytes::*;
use vstd::prelude::*;
use vstd::string::*;
use vstd::utf8::*;

verus! {

/// Whether the field from `at` on holds `text`, closed by zero bytes.
pub open spec fn field_holds(table: Seq<u8>, at: int, width: int, text: Seq<u8>) -> bool {
    &&& 0 <= at
    &&& at + width <= table.len()
    &&& text.len() <= width
    &&& table.subrange(at, at + text.len()) == text
    &&& forall|i: int| at + text.len() <= i < at + width ==> #[trigger] table[i] == 0
}

/// Whether a table, read target by target from `at` on, maps the sector `s` to a
/// sector of the device, or to zeros. A target holds its first sector, its length,
/// the distance to the next target and its kind; the parameters of a linear one are
/// the device and the sector there that its first sector maps to.
pub open spec fn maps_to(
    table: Seq<u8>,
    at: int,
    device: Seq<char>,
    s: int,
    to: Option<int>,
) -> bool
    decreases table.len() - at,
{
    let start = u64_at(table, at);
    let len = u64_at(table, at + 8);
    let next = u32_at(table, at + 20);
    if at < 0 || at + 40 > table.len() || next < 40 || at + next > table.len() {
        false
    } else if start <= s < start + len {
        match to {
            None => field_holds(table, at + 24, 16, seq![0x7a, 0x65, 0x72, 0x6f]),
            Some(x) => field_holds(
                table,
                at + 24,
                16,
                seq![0x6c, 0x69, 0x6e, 0x65, 0x61, 0x72],
            ) && exists|first: u64|
                x == first + (s - start) && #[trigger] field_holds(
                    table,
                    at + 40,
                    next - 40,
                    encode_utf8(device + seq![' '] + decimal(first as nat)),
                ),
        }
    } else {
        maps_to(table, at + next, device, s, to)
    }
}

/// Whether the targets of a table follow one another up to its end, `n` of them.
pub open spec fn has_targets(table: Seq<u8>, at: int, n: int) -> bool
    decreases n,
{
    if n <= 0 {
        at == table.len()
    } else {
        &&& 0 <= at
        &&& at + 40 <= table.len()
        &&& u32_at(table, at + 20) >= 40
        &&& has_targets(table, at + u32_at(table, at + 20), n - 1)
    }
}

/// The sector that a partition's sector lies on, inside an extent that starts at the
/// partition's sector `o`.
pub open spec fn sector_behind(e: Extent, o: int, s: int) -> Option<int> {
    if e.target_type == LP_TARGET_TYPE_LINEAR {
        Some(e.target_data + (s - o))
    } else {
        None
    }
}

/// The fields of the head of a target at `at`.
proof fn lemma_head(
    table: Seq<u8>,
    at: int,
    start: u64,
    len: u64,
    next: u32,
    kind: Seq<u8>,
    rest: Seq<u8>,
)
    requires
        0 <= at <= table.len(),
        kind.len() <= 16,
        table.subrange(at, table.len() as int) == target_head(start, len, next, kind) + rest,
    ensures
        at + 40 <= table.len(),
        u64_at(table, at) == start,
        u64_at(table, at + 8) == len,
        u32_at(table, at + 20) == next,
        field_holds(table, at + 24, 16, kind),
        table.subrange(at + 40, table.len() as int) == rest,
{
    lemma_widths();
    let tail = table.subrange(at, table.len() as int);
    let head = target_head(start, len, next, kind);
    assert(head.len() == 40);
    assert(tail.len() == head.len() + rest.len());
    assert(table.subrange(at, at + 8) =~= tail.subrange(0, 8));
    assert(tail.subrange(0, 8) =~= spec_u64_to_le_bytes(start));
    lemma_u64_stored(table, at, start);
    assert(table.subrange(at + 8, at + 16) =~= tail.subrange(8, 16));
    assert(tail.subrange(8, 16) =~= spec_u64_to_le_bytes(len));
    lemma_u64_stored(table, at + 8, len);
    assert(table.subrange(at + 20, at + 24) =~= tail.subrange(20, 24));
    assert(tail.subrange(20, 24) =~= spec_u32_to_le_bytes(next));
    lemma_u32_stored(table, at + 20, next);
    assert(table.subrange(at + 24, at + 24 + kind.len()) =~= tail.subrange(
        24,
        24 + kind.len() as int,
    ));
    assert(tail.subrange(24, 24 + kind.len() as int) =~= kind);
    assert forall|i: int| at + 24 + kind.len() <= i < at + 40 implies #[trigger] table[i] == 0 by {
        assert(table[i] == tail[i - at]);
    }
    assert(table.subrange(at + 40, table.len() as int) =~= tail.subrange(
        40,
        tail.len() as int,
    ));
    assert(tail.subrange(40, tail.len() as int) =~= rest);
}

/// The kinds of targets, byte by byte.
proof fn lemma_kinds()
    ensures
        "linear".spec_bytes() == seq![0x6cu8, 0x69, 0x6e, 0x65, 0x61, 0x72],
        "zero".spec_bytes() == seq![0x7au8, 0x65, 0x72, 0x6f],
        " "@ == seq![' '],
{
    reveal_strlit("linear");
    assert(is_ascii("linear"));
    is_ascii_spec_bytes("linear");
    reveal_strlit("zero");
    assert(is_ascii("zero"));
    is_ascii_spec_bytes("zero");
    reveal_strlit(" ");
    assert("linear".spec_bytes() =~= seq![0x6cu8, 0x69, 0x6e, 0x65, 0x61, 0x72]);
    assert("zero".spec_bytes() =~= seq![0x7au8, 0x65, 0x72, 0x6f]);
    assert(" "@ =~= seq![' ']);
}

/// The length of the parameters of a linear target.
proof fn lemma_params(device: Seq<char>, sector: u64)
    requires
        encode_utf8(device).len() <= 4096,
    ensures
        linear_params(device, sector).len() <= 4096 + 4 + 80 + 1,
        linear_params(device, sector) == encode_utf8(device + seq![' '] + decimal(sector as nat))
            + zeros(1),
{
    let number = decimal(sector as nat);
    lemma_kinds();
    lemma_decimal_len(sector);
    lemma_encode_concat(device + " "@, number);
    lemma_encode_concat(device, " "@);
    lemma_encode_len(number);
    lemma_encode_len(" "@);
}

/// One target of a table: what stands at `at`, and where the next one stands.
proof fn lemma_target(
    table: Seq<u8>,
    at: int,
    device: Seq<char>,
    start: u64,
    e: Extent,
    rest: Seq<u8>,
)
    requires
        encode_utf8(device).len() <= 4096,
        0 <= at <= table.len(),
        e.target_type == LP_TARGET_TYPE_LINEAR || e.target_type == LP_TARGET_TYPE_ZERO,
        table.subrange(at, table.len() as int) == (if e.target_type == LP_TARGET_TYPE_LINEAR {
            linear_target(start, e.num_sectors, device, e.target_data)
        } else {
            zero_target(start, e.num_sectors)
        }) + rest,
    ensures
        at + 40 <= table.len(),
        u64_at(table, at) == start,
        u64_at(table, at + 8) == e.num_sectors,
        ({
            let next = u32_at(table, at + 20);
            &&& next >= 40
            &&& at + next <= table.len()
            &&& table.subrange(at + next, table.len() as int) == rest
            &&& e.target_type == LP_TARGET_TYPE_ZERO ==> field_holds(
                table,
                at + 24,
                16,
                seq![0x7a, 0x65, 0x72, 0x6f],
            )
            &&& e.target_type == LP_TARGET_TYPE_LINEAR ==> field_holds(
                table,
                at + 24,
                16,
                seq![0x6c, 0x69, 0x6e, 0x65, 0x61, 0x72],
            ) && field_holds(
                table,
                at + 40,
                next - 40,
                encode_utf8(device + seq![' '] + decimal(e.target_data as nat)),
            )
        }),
{
    lemma_kinds();
    if e.target_type == LP_TARGET_TYPE_ZERO {
        lemma_head(table, at, start, e.num_sectors, 40, "zero".spec_bytes(), rest);
    } else {
        let params = linear_params(device, e.target_data);
        let text = encode_utf8(device + seq![' '] + decimal(e.target_data as nat));
        lemma_params(device, e.target_data);
        let size = 40 + params.len();
        let pad = pad_to_eight(size as int);
        let next = (size + pad) as u32;
        let behind = params + zeros(pad) + rest;
        let head = target_head(start, e.num_sectors, next, "linear".spec_bytes());
        assert(head + params + zeros(pad) + rest =~= head + behind);
        lemma_head(table, at, start, e.num_sectors, next, "linear".spec_bytes(), behind);
        let tail = table.subrange(at + 40, table.len() as int);
        assert(table.subrange(at + next, table.len() as int) =~= tail.subrange(
            params.len() + pad,
            tail.len() as int,
        ));
        assert(tail.subrange(params.len() + pad, tail.len() as int) =~= rest);
        assert(table.subrange(at + 40, at + 40 + text.len()) =~= tail.subrange(
            0,
            text.len() as int,
        ));
        assert(tail.subrange(0, text.len() as int) =~= text);
        assert forall|i: int| at + 40 + text.len() <= i < at + next implies #[trigger] table[i]
            == 0 by {
            assert(table[i] == tail[i - at - 40]);
        }
    }
}

/// A table from its `i`-th target on.
proof fn lemma_maps(
    table: Seq<u8>,
    at: int,
    extents: Seq<Extent>,
    device: Seq<char>,
    i: int,
)
    requires
        encode_utf8(device).len() <= 4096,
        0 <= i <= extents.len(),
        0 <= at <= table.len(),
        sector_total(extents) <= u64::MAX,
        targets_from(extents, device, i, sector_total(extents.take(i))) == Ok::<Seq<u8>, Error>(
            table.subrange(at, table.len() as int),
        ),
    ensures
        has_targets(table, at, extents.len() - i),
        forall|k: int, s: int|
            #![trigger extents[k], maps_to(table, at, device, s, sector_behind(extents[k], sector_total(extents.take(k)), s))]
            i <= k < extents.len() && sector_total(extents.take(k)) <= s < sector_total(
                extents.take(k),
            ) + extents[k].num_sectors ==> maps_to(
                table,
                at,
                device,
                s,
                sector_behind(extents[k], sector_total(extents.take(k)), s),
            ),
    decreases extents.len() - i,
{
    let tail = table.subrange(at, table.len() as int);
    if i == extents.len() {
        assert(tail.len() == 0);
    } else {
        let e = extents[i];
        let start = sector_total(extents.take(i));
        assert(extents.take(i + 1).drop_last() =~= extents.take(i));
        lemma_prefix_total(extents, i);
        lemma_prefix_total(extents, i + 1);
        let rest = targets_from(extents, device, i + 1, start + e.num_sectors)->Ok_0;
        lemma_target(table, at, device, start as u64, e, rest);
        let next = u32_at(table, at + 20);
        lemma_maps(table, at + next, extents, device, i + 1);
        assert forall|k: int, s: int|
            #![trigger extents[k], maps_to(table, at, device, s, sector_behind(extents[k], sector_total(extents.take(k)), s))]
            i <= k < extents.len() && sector_total(extents.take(k)) <= s < sector_total(
                extents.take(k),
            ) + extents[k].num_sectors implies maps_to(
            table,
            at,
            device,
            s,
            sector_behind(extents[k], sector_total(extents.take(k)), s),
        ) by {
            let to = sector_behind(extents[k], sector_total(extents.take(k)), s);
            if k == i {
                if e.target_type == LP_TARGET_TYPE_LINEAR {
                    assert(field_holds(
                        table,
                        at + 40,
                        next - 40,
                        encode_utf8(device + seq![' '] + decimal(e.target_data as nat)),
                    ));
                }
            } else {
                lemma_prefix_total(extents.take(k), i + 1);
                assert(extents.take(k).take(i + 1) =~= extents.take(i + 1));
                assert(extents[k] == extents[k]);
                assert(maps_to(table, at + next, device, s, to));
            }
        }
    }
}

/// A mapping is the partition: its table has one target for each extent, and every
/// sector of the partition maps to the sector of the device that its extent gives it,
/// or to zeros in an extent of zeros. A table is made wherever every extent is linear
/// or of zeros.
pub proof fn law_table_maps(extents: Seq<Extent>, device: Seq<char>)
    requires
        encode_utf8(device).len() <= 4096,
        sector_total(extents) <= u64::MAX,
    ensures
        targets_from(extents, device, 0, 0) is Ok <==> forall|k: int|
            0 <= k < extents.len() ==> (#[trigger] extents[k]).target_type
                == LP_TARGET_TYPE_LINEAR || extents[k].target_type == LP_TARGET_TYPE_ZERO,
        targets_from(extents, device, 0, 0) matches Ok(table) ==> {
            &&& has_targets(table, 0, extents.len() as int)
            &&& forall|k: int, s: int|
                #![trigger extents[k], maps_to(table, 0, device, s, sector_behind(extents[k], sector_total(extents.take(k)), s))]
                0 <= k < extents.len() && sector_total(extents.take(k)) <= s < sector_total(
                    extents.take(k),
                ) + extents[k].num_sectors ==> maps_to(
                    table,
                    0,
                    device,
                    s,
                    sector_behind(extents[k], sector_total(extents.take(k)), s),
                )
        },
{
    lemma_targets_owed(extents, device, 0, 0);
    if let Ok(table) = targets_from(extents, device, 0, 0) {
        assert(extents.take(0) =~= Seq::<Extent>::empty());
        assert(sector_total(extents.take(0)) == 0);
        assert(table.subrange(0, table.len() as int) =~= table);
        lemma_maps(table, 0, extents, device, 0);
    }
}

proof fn lemma_targets_owed(extents: Seq<Extent>, device: Seq<char>, i: int, start: int)
    requires
        0 <= i <= extents.len(),
    ensures
        targets_from(extents, device, i, start) is Ok <==> forall|k: int|
            i <= k < extents.len() ==> (#[trigger] extents[k]).target_type
                == LP_TARGET_TYPE_LINEAR || extents[k].target_type == LP_TARGET_TYPE_ZERO,
        targets_from(extents, device, i, start) matches Err(e) ==> exists|k: int|
            i <= k < extents.len() && e == Error::Invalid(
                Fault::ExtentType { target_type: (#[trigger] extents[k]).target_type },
            ),
    decreases extents.len() - i,
{
    if i < extents.len() {
        lemma_targets_owed(extents, device, i + 1, start + extents[i].num_sectors);
        let e = extents[i];
    }
}

/// What is read of a partition lies where its chain says: a byte is the byte of the
/// device in the sector that the extent gives it, or zero in an extent of zeros.
pub proof fn law_chain_bytes_placed<D: ExtentSource>(d: &D, extents: Seq<Extent>, k: int, i: int)
    requires
        512 * sector_total(extents) <= u64::MAX,
        0 <= k < extents.len(),
        0 <= i < 512 * extents[k].num_sectors,
    ensures
        ({
            let at = 512 * sector_total(extents.take(k)) + i;
            &&& 0 <= at < chain_data(d, extents).len() == 512 * sector_total(extents)
            &&& chain_data(d, extents)[at] == (if extents[k].target_type == LP_TARGET_TYPE_LINEAR {
                d.device(extents[k].target_source)->Some_0[512 * extents[k].target_data + i]
            } else {
                0u8
            })
        }),
{
    lemma_sector_total(extents);
    lemma_prefix_total(extents, k);
    lemma_prefix_total(extents, k + 1);
    assert(extents.take(k + 1).drop_last() =~= extents.take(k));
    lemma_chain_bytes(extents);
    lemma_chain_bytes(extents.take(k));
    lemma_chain_data(d, extents, k);
    lemma_chain_len(extents, k);
    assert(extent_len(extents[k]) == 512 * extents[k].num_sectors);
    assert(chain_data(d, extents)[chain_len(extents.take(k)) + i] == extent_byte(
        d,
        extents[k],
        i,
    ));
}

/// A mapping and a read agree: where the table maps a sector of the partition to a
/// sector of the device, a read of that sector gives the bytes there.
pub proof fn law_mapping_reads_same<D: ExtentSource>(
    d: &D,
    extents: Seq<Extent>,
    device: Seq<char>,
    k: int,
    s: int,
    b: int,
)
    requires
        encode_utf8(device).len() <= 4096,
        512 * sector_total(extents) <= u64::MAX,
        targets_from(extents, device, 0, 0) is Ok,
        0 <= k < extents.len(),
        sector_total(extents.take(k)) <= s < sector_total(extents.take(k))
            + extents[k].num_sectors,
        0 <= b < 512,
    ensures
        ({
            let table = targets_from(extents, device, 0, 0)->Ok_0;
            let to = if extents[k].target_type == LP_TARGET_TYPE_LINEAR {
                Some(extents[k].target_data + (s - sector_total(extents.take(k))))
            } else {
                None
            };
            &&& maps_to(table, 0, device, s, to)
            &&& chain_data(d, extents)[512 * s + b] == (match to {
                Some(x) => d.device(extents[k].target_source)->Some_0[512 * x + b],
                None => 0u8,
            })
        }),
{
    let o = sector_total(extents.take(k));
    law_table_maps(extents, device);
    let table = targets_from(extents, device, 0, 0)->Ok_0;
    assert(maps_to(table, 0, device, s, sector_behind(extents[k], o, s)));
    law_chain_bytes_placed(d, extents, k, 512 * (s - o) + b);
}

/// The request that loads a table says how long it is, where the table starts and how
/// many targets it has, names the mapping, and is marked read-only exactly where the
/// mapping is to be.
pub proof fn law_load_request(name: Seq<char>, table: Seq<u8>, targets: u32, readonly: bool)
    requires
        table.len() + 312 <= u32::MAX,
    ensures
        ({
            let request = load_request(name, table, targets, readonly);
            let text = encode_utf8(name);
            let shown = if text.len() < 128 {
                text
            } else {
                text.take(127)
            };
            &&& request.len() == 312 + table.len()
            &&& u32_at(request, 0) == 4
            &&& u32_at(request, 12) == request.len()
            &&& u32_at(request, 16) == 312
            &&& u32_at(request, 20) == targets
            &&& u32_at(request, 28) == (if readonly {
                1u32
            } else {
                0u32
            })
            &&& field_holds(request, 48, 128, shown)
            &&& request.subrange(u32_at(request, 16) as int, request.len() as int) == table
        }),
{
    lemma_widths();
    let size = (312 + table.len()) as u32;
    let flags: u32 = if readonly {
        1
    } else {
        0
    };
    let head = request_head(name, size, 312, targets, flags);
    let request = load_request(name, table, targets, readonly);
    let text = encode_utf8(name);
    let shown = if text.len() < 128 {
        text
    } else {
        text.take(127)
    };
    assert(head.len() == 312);
    assert(request =~= head + table);
    assert(request.subrange(0, 4) =~= spec_u32_to_le_bytes(4));
    lemma_u32_stored(request, 0, 4);
    assert(request.subrange(12, 16) =~= spec_u32_to_le_bytes(size));
    lemma_u32_stored(request, 12, size);
    assert(request.subrange(16, 20) =~= spec_u32_to_le_bytes(312));
    lemma_u32_stored(request, 16, 312);
    assert(request.subrange(20, 24) =~= spec_u32_to_le_bytes(targets));
    lemma_u32_stored(request, 20, targets);
    assert(request.subrange(28, 32) =~= spec_u32_to_le_bytes(flags));
    lemma_u32_stored(request, 28, flags);
    assert(request.subrange(48, 48 + shown.len() as int) =~= shown);
    assert(request.subrange(312, request.len() as int) =~= table);
}

/// A mapping that is planned is that of the partition: it has its name, one target for
/// each extent, and every sector of the partition goes to the sector of the device that
/// the chain gives it. It is read-only where the partition is marked so and that is not
/// overridden. It is refused only for a partition without extents, or with more sectors
/// than 64 bits count, or with an extent that cannot be mapped.
pub proof fn law_map_planned(
    t: TablesView,
    i: int,
    device: Seq<char>,
    force_writable: bool,
    r: Result<MapPlan, Error>,
)
    requires
        0 <= i < t.partitions.len(),
        encode_utf8(device).len() <= 4096,
        map_planned(t, i, device, force_writable, r),
    ensures
        ({
            let p = t.partitions[i];
            let chain = extents_of_partition(t.extents, p);
            match r {
                Ok(plan) => plan.load@.len() <= u32::MAX ==> {
                    let table = plan.load@.skip(312);
                    &&& plan.load@.len() >= 312
                    &&& plan.name@ == p.name
                    &&& plan.readonly <==> p.attributes % 2 == 1 && !force_writable
                    &&& u32_at(plan.load@, 28) == (if plan.readonly {
                        1u32
                    } else {
                        0u32
                    })
                    &&& plan.targets == chain.len()
                    &&& u32_at(plan.load@, 20) == plan.targets
                    &&& has_targets(table, 0, chain.len() as int)
                    &&& forall|k: int, s: int|
                        #![trigger chain[k], maps_to(table, 0, device, s, sector_behind(chain[k], sector_total(chain.take(k)), s))]
                        0 <= k < chain.len() && sector_total(chain.take(k)) <= s < sector_total(
                            chain.take(k),
                        ) + chain[k].num_sectors ==> maps_to(
                            table,
                            0,
                            device,
                            s,
                            sector_behind(chain[k], sector_total(chain.take(k)), s),
                        )
                },
                Err(_) => {
                    ||| p.num_extents == 0
                    ||| sector_total(chain) > u64::MAX
                    ||| exists|k: int|
                        0 <= k < chain.len() && (#[trigger] chain[k]).target_type
                            != LP_TARGET_TYPE_LINEAR && chain[k].target_type != LP_TARGET_TYPE_ZERO
                },
            }
        }),
{
    let p = t.partitions[i];
    let chain = extents_of_partition(t.extents, p);
    let attrs = p.attributes;
    assert(attrs & 1 != 0 <==> attrs % 2 == 1) by (bit_vector);
    if sector_total(chain) <= u64::MAX {
        law_table_maps(chain, device);
        if let Ok(plan) = r {
            let table = targets_from(chain, device, 0, 0)->Ok_0;
            if plan.load@.len() <= u32::MAX {
                lemma_request_len(p.name, table, plan.targets, plan.readonly);
                law_load_request(p.name, table, plan.targets, plan.readonly);
                assert(plan.load@.skip(312) =~= plan.load@.subrange(
                    312,
                    plan.load@.len() as int,
                ));
            }
        }
    }
}

/// A request has its head before its table.
proof fn lemma_request_len(name: Seq<char>, table: Seq<u8>, targets: u32, readonly: bool)
    ensures
        load_request(name, table, targets, readonly).len() == 312 + table.len(),
{
    lemma_widths();
}

} // verus!
