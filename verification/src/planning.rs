//! What the plan of a run says of each source that is configured.

use vstd::prelude::*;

use crate::config::{
    self, DoubleZeroConfig, JitoConfig, PcapConfig, PlannedSource, RawUdpConfig, SourceKind,
    SourcesConfig, YellowstoneConfig,
};
use crate::registry::SourceId;
use crate::text;

verus! {

/// Whether a stream is called as it should be: by its own name, if it has one; else by that of its
/// kind, and its number among the enabled ones where there are several.
pub open spec fn is_called(
    name: Seq<char>,
    own: Seq<char>,
    kind: Seq<char>,
    before: nat,
    total: nat,
) -> bool {
    &&& own.len() > 0 ==> name == own
    &&& own.len() == 0 && total == 1 ==> name == kind
    &&& own.len() == 0 && total > 1 ==> name == kind + " "@ + text::decimal(before + 1)
}

/// The streams of a kind that are of the source at a place.
pub open spec fn of_source(kind: SourceKind, place: nat) -> spec_fn(config::PlannedView) -> bool {
    |stream: config::PlannedView| stream.kind == kind && stream.place == place
}

/// How many of the first sources are enabled.
proof fn lemma_enabled(entries: Seq<config::EntryView>, count: int)
    requires
        0 <= count <= entries.len(),
    ensures
        config::enabled_in(entries, count) == entries.take(count).filter(
            |entry: config::EntryView| entry.enabled,
        ).len(),
    decreases count,
{
    reveal(Seq::filter);
    if count > 0 {
        lemma_enabled(entries, count - 1);
        assert(entries.take(count).drop_last() =~= entries.take(count - 1));
    }
}

/// Where a stream of a source is the only one of its kind, it is planned where the source is
/// enabled, and once.
proof fn lemma_planned(
    entries: Seq<config::EntryView>,
    count: int,
    kind: SourceKind,
    place: int,
    at: int,
)
    requires
        0 <= count <= entries.len(),
        0 <= place,
        place < entries.len() ==> only_at(entries[place].streams, kind, at),
    ensures
        ({
            let found = config::planned(entries, count).filter(of_source(kind, place as nat));
            if place < count && entries[place].enabled {
                found == seq![
                    config::planned_streams(
                        entries[place].streams,
                        place as nat,
                        config::enabled_in(entries, place),
                        config::enabled_in(entries, entries.len() as int),
                    )[at],
                ]
            } else {
                found.len() == 0
            }
        }),
    decreases count,
{
    if count == 0 {
        reveal(Seq::filter);
    } else {
        lemma_planned(entries, count - 1, kind, place, at);
        let last = entries[count - 1];
        let before = config::planned(entries, count - 1);
        let keep = of_source(kind, place as nat);
        if last.enabled {
            let more = config::planned_streams(
                last.streams,
                (count - 1) as nat,
                config::enabled_in(entries, count - 1),
                config::enabled_in(entries, entries.len() as int),
            );
            Seq::filter_distributes_over_add(before, more, keep);
            if place == count - 1 {
                lemma_only(more, keep, at);
                assert(before.filter(keep) + seq![more[at]] =~= seq![more[at]]);
            } else {
                lemma_none(more, keep);
                assert(before.filter(keep) + more.filter(keep) =~= before.filter(keep));
            }
        }
    }
}

/// Whether the stream at `at` is the only one of a kind.
pub open spec fn only_at(streams: Seq<config::StreamView>, kind: SourceKind, at: int) -> bool {
    &&& 0 <= at < streams.len()
    &&& forall|i: int|
        #![trigger streams[i]]
        0 <= i < streams.len() ==> (streams[i].kind == kind <==> i == at)
}

proof fn lemma_none<A>(list: Seq<A>, keep: spec_fn(A) -> bool)
    requires
        forall|i: int| #![trigger list[i]] 0 <= i < list.len() ==> !keep(list[i]),
    ensures
        list.filter(keep).len() == 0,
    decreases list.len(),
{
    reveal(Seq::filter);
    if list.len() > 0 {
        let rest = list.drop_last();
        assert forall|i: int| #![trigger rest[i]] 0 <= i < rest.len() implies !keep(rest[i]) by {
            assert(rest[i] == list[i]);
        }
        lemma_none(rest, keep);
        assert(list[list.len() - 1] == list.last());
    }
}

proof fn lemma_only<A>(list: Seq<A>, keep: spec_fn(A) -> bool, at: int)
    requires
        0 <= at < list.len(),
        forall|i: int| #![trigger list[i]] 0 <= i < list.len() ==> (keep(list[i]) <==> i == at),
    ensures
        list.filter(keep) == seq![list[at]],
{
    let (left, right) = (list.take(at), list.skip(at + 1));
    let one = seq![list[at]];
    assert(list =~= left + one + right);
    Seq::filter_distributes_over_add(left + one, right, keep);
    Seq::filter_distributes_over_add(left, one, keep);
    assert forall|i: int| #![trigger left[i]] 0 <= i < left.len() implies !keep(left[i]) by {
        assert(left[i] == list[i]);
    }
    assert forall|i: int| #![trigger right[i]] 0 <= i < right.len() implies !keep(right[i]) by {
        assert(right[i] == list[at + 1 + i]);
    }
    lemma_none(left, keep);
    lemma_none(right, keep);
    assert(one.filter(keep) =~= one) by {
        reveal_with_fuel(Seq::filter, 2);
        assert(one.drop_last() =~= Seq::empty());
        assert(one.last() == list[at]);
    }
    assert(left.filter(keep) + one.filter(keep) + right.filter(keep) =~= one);
}

/// A kind that the sources have no stream of is not planned.
proof fn lemma_not_planned(
    entries: Seq<config::EntryView>,
    count: int,
    kind: SourceKind,
    place: nat,
)
    requires
        0 <= count <= entries.len(),
        forall|n: int, i: int|
            #![trigger entries[n].streams[i]]
            0 <= n < entries.len() && 0 <= i < entries[n].streams.len()
                ==> entries[n].streams[i].kind != kind,
    ensures
        config::planned(entries, count).filter(of_source(kind, place)).len() == 0,
    decreases count,
{
    if count == 0 {
        reveal(Seq::filter);
    } else {
        lemma_not_planned(entries, count - 1, kind, place);
        let last = entries[count - 1];
        if last.enabled {
            let more = config::planned_streams(
                last.streams,
                (count - 1) as nat,
                config::enabled_in(entries, count - 1),
                config::enabled_in(entries, entries.len() as int),
            );
            let keep = of_source(kind, place);
            assert forall|i: int| #![trigger more[i]] 0 <= i < more.len() implies !keep(
                more[i],
            ) by {
                assert(entries[count - 1].streams[i].kind != kind);
            }
            Seq::filter_distributes_over_add(config::planned(entries, count - 1), more, keep);
            lemma_none(more, keep);
        }
    }
}

/// The streams of a plan, kind by kind.
proof fn lemma_plan_parts(sources: SourcesConfig, kind: SourceKind, place: nat)
    ensures
        ({
            let keep = of_source(kind, place);
            let raw_udp = config::all_planned(config::raw_udp_entries(sources.raw_udp@));
            let jito = config::all_planned(config::jito_entries(sources.jito@));
            let doublezero = config::all_planned(
                config::doublezero_entries(sources.doublezero@),
            );
            let yellowstone = config::all_planned(
                config::yellowstone_entries(sources.yellowstone@),
            );
            let pcap = config::all_planned(config::pcap_entries(sources.pcap@));
            config::plan_of(sources).filter(keep) == if kind is RawUdp {
                raw_udp.filter(keep)
            } else if kind is JitoShreds || kind is JitoEntries {
                jito.filter(keep)
            } else if kind is DoubleZero {
                doublezero.filter(keep)
            } else if kind is Pcap {
                pcap.filter(keep)
            } else {
                yellowstone.filter(keep)
            }
        }),
{
    let keep = of_source(kind, place);
    let e1 = config::raw_udp_entries(sources.raw_udp@);
    let e2 = config::jito_entries(sources.jito@);
    let e3 = config::doublezero_entries(sources.doublezero@);
    let e4 = config::yellowstone_entries(sources.yellowstone@);
    let e5 = config::pcap_entries(sources.pcap@);
    let (p1, p2, p3) = (
        config::all_planned(e1),
        config::all_planned(e2),
        config::all_planned(e3),
    );
    let (p4, p5) = (config::all_planned(e4), config::all_planned(e5));
    Seq::filter_distributes_over_add(p1 + p2 + p3 + p4, p5, keep);
    Seq::filter_distributes_over_add(p1 + p2 + p3, p4, keep);
    Seq::filter_distributes_over_add(p1 + p2, p3, keep);
    Seq::filter_distributes_over_add(p1, p2, keep);
    if !(kind is RawUdp) {
        lemma_not_planned(e1, e1.len() as int, kind, place);
    }
    if !(kind is JitoShreds || kind is JitoEntries) {
        lemma_not_planned(e2, e2.len() as int, kind, place);
    }
    if !(kind is DoubleZero) {
        lemma_not_planned(e3, e3.len() as int, kind, place);
    }
    if !(kind is Yellowstone || kind is YellowstoneAccount) {
        lemma_not_planned(e4, e4.len() as int, kind, place);
    }
    if !(kind is Pcap) {
        lemma_not_planned(e5, e5.len() as int, kind, place);
    }
    let all = p1.filter(keep) + p2.filter(keep) + p3.filter(keep) + p4.filter(keep) + p5.filter(
        keep,
    );
    if kind is RawUdp {
        assert(all =~= p1.filter(keep));
    } else if kind is JitoShreds || kind is JitoEntries {
        assert(all =~= p2.filter(keep));
    } else if kind is DoubleZero {
        assert(all =~= p3.filter(keep));
    } else if kind is Pcap {
        assert(all =~= p5.filter(keep));
    } else {
        assert(all =~= p4.filter(keep));
    }
}

proof fn lemma_same_count<A, B>(
    a: Seq<A>,
    b: Seq<B>,
    keep: spec_fn(A) -> bool,
    also: spec_fn(B) -> bool,
)
    requires
        a.len() == b.len(),
        forall|i: int| #![trigger a[i]] 0 <= i < a.len() ==> keep(a[i]) == also(b[i]),
    ensures
        a.filter(keep).len() == b.filter(also).len(),
    decreases a.len(),
{
    reveal(Seq::filter);
    if a.len() > 0 {
        let (fewer, rest) = (a.drop_last(), b.drop_last());
        assert forall|i: int| #![trigger fewer[i]] 0 <= i < fewer.len() implies keep(fewer[i])
            == also(rest[i]) by {
            assert(fewer[i] == a[i]);
        }
        lemma_same_count(fewer, rest, keep, also);
        assert(a[a.len() - 1] == a.last());
    }
}

/// A source that is enabled counts.
proof fn lemma_one_enabled(entries: Seq<config::EntryView>, place: int)
    requires
        0 <= place < entries.len(),
        entries[place].enabled,
    ensures
        config::enabled_in(entries, entries.len() as int) >= 1,
{
    lemma_enabled(entries, entries.len() as int);
    assert(entries.take(entries.len() as int) =~= entries);
    let on = |entry: config::EntryView| entry.enabled;
    broadcast use vstd::seq_lib::group_filter_ensures;

    assert(entries.filter(on).contains(entries[place]));
}

/// A source without a stream of a kind has none in the plan.
proof fn lemma_no_stream(
    entries: Seq<config::EntryView>,
    count: int,
    kind: SourceKind,
    place: int,
)
    requires
        0 <= count <= entries.len(),
        0 <= place < entries.len(),
        forall|i: int|
            #![trigger entries[place].streams[i]]
            0 <= i < entries[place].streams.len() ==> entries[place].streams[i].kind != kind,
    ensures
        config::planned(entries, count).filter(of_source(kind, place as nat)).len() == 0,
    decreases count,
{
    if count == 0 {
        reveal(Seq::filter);
    } else {
        lemma_no_stream(entries, count - 1, kind, place);
        let last = entries[count - 1];
        if last.enabled {
            let more = config::planned_streams(
                last.streams,
                (count - 1) as nat,
                config::enabled_in(entries, count - 1),
                config::enabled_in(entries, entries.len() as int),
            );
            let keep = of_source(kind, place as nat);
            assert forall|i: int| #![trigger more[i]] 0 <= i < more.len() implies !keep(
                more[i],
            ) by {
                if place == count - 1 {
                    assert(entries[place].streams[i].kind != kind);
                }
            }
            Seq::filter_distributes_over_add(config::planned(entries, count - 1), more, keep);
            lemma_none(more, keep);
        }
    }
}

/// Every UDP socket that is enabled is listened to, once.
pub proof fn lemma_raw_udp_is_planned(sources: SourcesConfig, place: int)
    requires
        0 <= place,
    ensures
        ({
            let all = sources.raw_udp@;
            let enabled = |config: RawUdpConfig| config.enabled;
            let found = config::plan_of(sources).filter(
                of_source(SourceKind::RawUdp, place as nat),
            );
            if place < all.len() && all[place].enabled {
                let config = all[place];
                &&& found.len() == 1
                &&& found[0].active == (true)
                &&& is_called(
                    found[0].name,
                    config.name@,
                    "Raw UDP"@,
                    all.take(place).filter(enabled).len(),
                    all.filter(enabled).len(),
                )
            } else {
                found.len() == 0
            }
        }),
{
    let all = sources.raw_udp@;
    let entries = config::raw_udp_entries(all);
    let enabled = |config: RawUdpConfig| config.enabled;
    let on = |entry: config::EntryView| entry.enabled;
    lemma_plan_parts(sources, SourceKind::RawUdp, place as nat);
    if place < all.len() {
        assert(entries[place] == config::raw_udp_entry(all[place]));
        lemma_enabled(entries, place);
        lemma_enabled(entries, entries.len() as int);
        assert(entries.take(entries.len() as int) =~= entries);
        assert forall|i: int| #![trigger entries[i]] 0 <= i < entries.len() implies on(entries[i])
            == enabled(all[i]) by {}
        lemma_same_count(entries, all, on, enabled);
        let (fewer, some) = (entries.take(place), all.take(place));
        assert forall|i: int| #![trigger fewer[i]] 0 <= i < fewer.len() implies on(fewer[i])
            == enabled(some[i]) by {
            assert(fewer[i] == entries[i]);
        }
        lemma_same_count(fewer, some, on, enabled);
        if all[place].enabled {
            lemma_one_enabled(entries, place);
        }
    }
    lemma_planned(entries, entries.len() as int, SourceKind::RawUdp, place, 0);
}

/// Every DoubleZero group that is enabled is listened to, once.
pub proof fn lemma_doublezero_is_planned(sources: SourcesConfig, place: int)
    requires
        0 <= place,
    ensures
        ({
            let all = sources.doublezero@;
            let enabled = |config: DoubleZeroConfig| config.enabled;
            let found = config::plan_of(sources).filter(
                of_source(SourceKind::DoubleZero, place as nat),
            );
            if place < all.len() && all[place].enabled {
                let config = all[place];
                &&& found.len() == 1
                &&& found[0].active == (true)
                &&& is_called(
                    found[0].name,
                    config.name@,
                    "DoubleZero"@,
                    all.take(place).filter(enabled).len(),
                    all.filter(enabled).len(),
                )
            } else {
                found.len() == 0
            }
        }),
{
    let all = sources.doublezero@;
    let entries = config::doublezero_entries(all);
    let enabled = |config: DoubleZeroConfig| config.enabled;
    let on = |entry: config::EntryView| entry.enabled;
    lemma_plan_parts(sources, SourceKind::DoubleZero, place as nat);
    if place < all.len() {
        assert(entries[place] == config::doublezero_entry(all[place]));
        lemma_enabled(entries, place);
        lemma_enabled(entries, entries.len() as int);
        assert(entries.take(entries.len() as int) =~= entries);
        assert forall|i: int| #![trigger entries[i]] 0 <= i < entries.len() implies on(entries[i])
            == enabled(all[i]) by {}
        lemma_same_count(entries, all, on, enabled);
        let (fewer, some) = (entries.take(place), all.take(place));
        assert forall|i: int| #![trigger fewer[i]] 0 <= i < fewer.len() implies on(fewer[i])
            == enabled(some[i]) by {
            assert(fewer[i] == entries[i]);
        }
        lemma_same_count(fewer, some, on, enabled);
        if all[place].enabled {
            lemma_one_enabled(entries, place);
        }
    }
    lemma_planned(entries, entries.len() as int, SourceKind::DoubleZero, place, 0);
}

/// Every capture that is enabled is made, once.
pub proof fn lemma_pcap_is_planned(sources: SourcesConfig, place: int)
    requires
        0 <= place,
    ensures
        ({
            let all = sources.pcap@;
            let enabled = |config: PcapConfig| config.enabled;
            let found = config::plan_of(sources).filter(
                of_source(SourceKind::Pcap, place as nat),
            );
            if place < all.len() && all[place].enabled {
                let config = all[place];
                &&& found.len() == 1
                &&& found[0].active == (true)
                &&& is_called(
                    found[0].name,
                    config.name@,
                    "Raw Capture"@,
                    all.take(place).filter(enabled).len(),
                    all.filter(enabled).len(),
                )
            } else {
                found.len() == 0
            }
        }),
{
    let all = sources.pcap@;
    let entries = config::pcap_entries(all);
    let enabled = |config: PcapConfig| config.enabled;
    let on = |entry: config::EntryView| entry.enabled;
    lemma_plan_parts(sources, SourceKind::Pcap, place as nat);
    if place < all.len() {
        assert(entries[place] == config::pcap_entry(all[place]));
        lemma_enabled(entries, place);
        lemma_enabled(entries, entries.len() as int);
        assert(entries.take(entries.len() as int) =~= entries);
        assert forall|i: int| #![trigger entries[i]] 0 <= i < entries.len() implies on(entries[i])
            == enabled(all[i]) by {}
        lemma_same_count(entries, all, on, enabled);
        let (fewer, some) = (entries.take(place), all.take(place));
        assert forall|i: int| #![trigger fewer[i]] 0 <= i < fewer.len() implies on(fewer[i])
            == enabled(some[i]) by {
            assert(fewer[i] == entries[i]);
        }
        lemma_same_count(fewer, some, on, enabled);
        if all[place].enabled {
            lemma_one_enabled(entries, place);
        }
    }
    lemma_planned(entries, entries.len() as int, SourceKind::Pcap, place, 0);
}

/// Every Jito source that is enabled has a stream of shreds, which is active where a block engine
/// or a proxy is given.
pub proof fn lemma_jito_shreds_are_planned(sources: SourcesConfig, place: int)
    requires
        0 <= place,
    ensures
        ({
            let all = sources.jito@;
            let enabled = |config: JitoConfig| config.enabled;
            let found = config::plan_of(sources).filter(
                of_source(SourceKind::JitoShreds, place as nat),
            );
            if place < all.len() && all[place].enabled {
                let config = all[place];
                &&& found.len() == 1
                &&& found[0].active == (config.block_engine_url@.len() > 0
                    || config.proxy_udp_addr@.len() > 0)
                &&& is_called(
                    found[0].name,
                    config.name@,
                    "Jito ShredStream"@,
                    all.take(place).filter(enabled).len(),
                    all.filter(enabled).len(),
                )
            } else {
                found.len() == 0
            }
        }),
{
    let all = sources.jito@;
    let entries = config::jito_entries(all);
    let enabled = |config: JitoConfig| config.enabled;
    let on = |entry: config::EntryView| entry.enabled;
    lemma_plan_parts(sources, SourceKind::JitoShreds, place as nat);
    if place < all.len() {
        assert(entries[place] == config::jito_entry(all[place]));
        lemma_enabled(entries, place);
        lemma_enabled(entries, entries.len() as int);
        assert(entries.take(entries.len() as int) =~= entries);
        assert forall|i: int| #![trigger entries[i]] 0 <= i < entries.len() implies on(entries[i])
            == enabled(all[i]) by {}
        lemma_same_count(entries, all, on, enabled);
        let (fewer, some) = (entries.take(place), all.take(place));
        assert forall|i: int| #![trigger fewer[i]] 0 <= i < fewer.len() implies on(fewer[i])
            == enabled(some[i]) by {
            assert(fewer[i] == entries[i]);
        }
        lemma_same_count(fewer, some, on, enabled);
        if all[place].enabled {
            lemma_one_enabled(entries, place);
        }
    }
    lemma_planned(entries, entries.len() as int, SourceKind::JitoShreds, place, 0);
}

/// Every Jito source that is enabled has a stream of entries, which is active where a proxy offers
/// them.
pub proof fn lemma_jito_entries_are_planned(sources: SourcesConfig, place: int)
    requires
        0 <= place,
    ensures
        ({
            let all = sources.jito@;
            let enabled = |config: JitoConfig| config.enabled;
            let found = config::plan_of(sources).filter(
                of_source(SourceKind::JitoEntries, place as nat),
            );
            if place < all.len() && all[place].enabled {
                let config = all[place];
                &&& found.len() == 1
                &&& found[0].active == (config.proxy_grpc_addr@.len() > 0)
                &&& is_called(
                    found[0].name,
                    if config.name@.len() > 0 {
                        config.name@ + " (entries)"@
                    } else {
                        Seq::empty()
                    },
                    "Jito Entries"@,
                    all.take(place).filter(enabled).len(),
                    all.filter(enabled).len(),
                )
            } else {
                found.len() == 0
            }
        }),
{
    let all = sources.jito@;
    let entries = config::jito_entries(all);
    let enabled = |config: JitoConfig| config.enabled;
    let on = |entry: config::EntryView| entry.enabled;
    lemma_plan_parts(sources, SourceKind::JitoEntries, place as nat);
    if place < all.len() {
        assert(entries[place] == config::jito_entry(all[place]));
        lemma_enabled(entries, place);
        lemma_enabled(entries, entries.len() as int);
        assert(entries.take(entries.len() as int) =~= entries);
        assert forall|i: int| #![trigger entries[i]] 0 <= i < entries.len() implies on(entries[i])
            == enabled(all[i]) by {}
        lemma_same_count(entries, all, on, enabled);
        let (fewer, some) = (entries.take(place), all.take(place));
        assert forall|i: int| #![trigger fewer[i]] 0 <= i < fewer.len() implies on(fewer[i])
            == enabled(some[i]) by {
            assert(fewer[i] == entries[i]);
        }
        lemma_same_count(fewer, some, on, enabled);
        if all[place].enabled {
            lemma_one_enabled(entries, place);
        }
    }
    lemma_planned(entries, entries.len() as int, SourceKind::JitoEntries, place, 1);
}

/// Every Yellowstone source that is enabled has a stream of slots.
pub proof fn lemma_yellowstone_is_planned(sources: SourcesConfig, place: int)
    requires
        0 <= place,
    ensures
        ({
            let all = sources.yellowstone@;
            let enabled = |config: YellowstoneConfig| config.enabled;
            let found = config::plan_of(sources).filter(
                of_source(SourceKind::Yellowstone, place as nat),
            );
            if place < all.len() && all[place].enabled {
                let config = all[place];
                &&& found.len() == 1
                &&& found[0].active == (true)
                &&& is_called(
                    found[0].name,
                    config.name@,
                    "Yellowstone"@,
                    all.take(place).filter(enabled).len(),
                    all.filter(enabled).len(),
                )
            } else {
                found.len() == 0
            }
        }),
{
    let all = sources.yellowstone@;
    let entries = config::yellowstone_entries(all);
    let enabled = |config: YellowstoneConfig| config.enabled;
    let on = |entry: config::EntryView| entry.enabled;
    lemma_plan_parts(sources, SourceKind::Yellowstone, place as nat);
    if place < all.len() {
        assert(entries[place] == config::yellowstone_entry(all[place]));
        lemma_enabled(entries, place);
        lemma_enabled(entries, entries.len() as int);
        assert(entries.take(entries.len() as int) =~= entries);
        assert forall|i: int| #![trigger entries[i]] 0 <= i < entries.len() implies on(entries[i])
            == enabled(all[i]) by {}
        lemma_same_count(entries, all, on, enabled);
        let (fewer, some) = (entries.take(place), all.take(place));
        assert forall|i: int| #![trigger fewer[i]] 0 <= i < fewer.len() implies on(fewer[i])
            == enabled(some[i]) by {
            assert(fewer[i] == entries[i]);
        }
        lemma_same_count(fewer, some, on, enabled);
        if all[place].enabled {
            lemma_one_enabled(entries, place);
        }
    }
    lemma_planned(entries, entries.len() as int, SourceKind::Yellowstone, place, 0);
}

/// Every Yellowstone source that is enabled and has an account has a stream of its updates; one
/// without an account has none.
pub proof fn lemma_accounts_are_planned(sources: SourcesConfig, place: int)
    requires
        0 <= place,
    ensures
        ({
            let all = sources.yellowstone@;
            let enabled = |config: YellowstoneConfig| config.enabled;
            let found = config::plan_of(sources).filter(
                of_source(SourceKind::YellowstoneAccount, place as nat),
            );
            if place < all.len() && all[place].enabled && all[place].account_pubkey@.len() > 0 {
                let config = all[place];
                &&& found.len() == 1
                &&& found[0].active == (true)
                &&& is_called(
                    found[0].name,
                    if config.account_name@.len() > 0 {
                        config.account_name@
                    } else if config.name@.len() > 0 {
                        config.name@ + " (account)"@
                    } else {
                        Seq::empty()
                    },
                    "Yellowstone Account"@,
                    all.take(place).filter(enabled).len(),
                    all.filter(enabled).len(),
                )
            } else {
                found.len() == 0
            }
        }),
{
    let all = sources.yellowstone@;
    let entries = config::yellowstone_entries(all);
    let enabled = |config: YellowstoneConfig| config.enabled;
    let on = |entry: config::EntryView| entry.enabled;
    lemma_plan_parts(sources, SourceKind::YellowstoneAccount, place as nat);
    if place < all.len() {
        assert(entries[place] == config::yellowstone_entry(all[place]));
        lemma_enabled(entries, place);
        lemma_enabled(entries, entries.len() as int);
        assert(entries.take(entries.len() as int) =~= entries);
        assert forall|i: int| #![trigger entries[i]] 0 <= i < entries.len() implies on(entries[i])
            == enabled(all[i]) by {}
        lemma_same_count(entries, all, on, enabled);
        let (fewer, some) = (entries.take(place), all.take(place));
        assert forall|i: int| #![trigger fewer[i]] 0 <= i < fewer.len() implies on(fewer[i])
            == enabled(some[i]) by {
            assert(fewer[i] == entries[i]);
        }
        lemma_same_count(fewer, some, on, enabled);
        if all[place].enabled {
            lemma_one_enabled(entries, place);
        }
    }
    if place < all.len() && all[place].account_pubkey@.len() == 0 {
        lemma_no_stream(entries, entries.len() as int, SourceKind::YellowstoneAccount, place);
    } else {
        lemma_planned(entries, entries.len() as int, SourceKind::YellowstoneAccount, place, 1);
    }
}

/// Whether a stream is active, and is of shreds or is not.
pub open spec fn active_of(shreds: bool) -> spec_fn(PlannedSource) -> bool {
    |source: PlannedSource|
        source.active && shreds == (source.kind is RawUdp || source.kind is JitoShreds
            || source.kind is DoubleZero || source.kind is Pcap)
}

/// The active streams of a plan are told apart by whether they are of shreds: sockets, block
/// engines, groups and captures are; entries, slots and accounts are not. Each is in one of the two
/// lists, with its id and its name, in the order of the plan.
pub proof fn lemma_active_streams(
    active: Seq<(SourceId, String)>,
    plan: Seq<PlannedSource>,
    shreds: bool,
)
    requires
        config::lists_active(active, plan, shreds),
    ensures
        ({
            let chosen = plan.filter(active_of(shreds));
            &&& active.len() == chosen.len()
            &&& forall|i: int|
                #![trigger active[i]]
                0 <= i < active.len() ==> active[i].0 == chosen[i].id && active[i].1@
                    == chosen[i].name@
        }),
{
    lemma_active_first(plan, shreds, plan.len() as int);
    assert(plan.take(plan.len() as int) =~= plan);
    let chosen = plan.filter(active_of(shreds));
    let places = config::active_places(plan, shreds, plan.len() as int);
    assert forall|i: int| #![trigger active[i]] 0 <= i < active.len() implies active[i].0
        == chosen[i].id && active[i].1@ == chosen[i].name@ by {
        assert(chosen[i] == plan[places[i]]);
    }
}

proof fn lemma_active_first(plan: Seq<PlannedSource>, shreds: bool, count: int)
    requires
        0 <= count <= plan.len(),
    ensures
        ({
            let places = config::active_places(plan, shreds, count);
            let chosen = plan.take(count).filter(active_of(shreds));
            &&& places.len() == chosen.len()
            &&& forall|i: int|
                #![trigger chosen[i]]
                0 <= i < chosen.len() ==> chosen[i] == plan[places[i]]
        }),
    decreases count,
{
    if count == 0 {
        reveal(Seq::filter);
        assert(plan.take(0).filter(active_of(shreds)).len() == 0);
    } else {
        lemma_active_first(plan, shreds, count - 1);
        crate::stats::lemma_filter_next(plan, count - 1, active_of(shreds));
    }
}

/// No two streams of a plan have the same id.
pub proof fn lemma_ids_are_different(plan: Seq<PlannedSource>, i: int, j: int)
    requires
        config::numbered(plan),
        plan.len() <= u32::MAX,
        0 <= i < j < plan.len(),
    ensures
        plan[i].id != plan[j].id,
{
}

/// No log is written where none is wanted; else it goes where the command line says, or where the
/// configuration says if the command line says nothing, and nowhere if neither does.
pub proof fn lemma_log_goes_where_it_is_told(
    no_log: bool,
    argument: Option<Seq<char>>,
    configured: Seq<char>,
)
    ensures
        ({
            let path = config::log_goes_to(no_log, argument, configured);
            &&& no_log ==> path is None
            &&& !no_log && argument is Some ==> path == argument
            &&& !no_log && argument is None && configured.len() > 0 ==> path == Some(configured)
            &&& !no_log && argument is None && configured.len() == 0 ==> path is None
        }),
{
}

/// A run lasts as long as it is told, unless it is told no time, or slots to start or end with.
pub proof fn lemma_run_lasts_as_told(duration_secs: u64, start: Option<u64>, end: Option<u64>)
    ensures
        ({
            let seconds = config::seconds_of(duration_secs, start, end);
            &&& duration_secs == 0 || start is Some || end is Some ==> seconds is None
            &&& duration_secs > 0 && start is None && end is None ==> seconds == Some(
                duration_secs,
            )
        }),
{
}

} // verus!
