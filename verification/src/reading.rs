//! What is shown, read back: the numbers in a report are those of the run.

use vstd::prelude::*;

use crate::binary64;
use crate::blocks::BlockSourceStats;
use crate::decimals;
use crate::order;
use crate::percentiles;
use crate::report;
use crate::stats::{BenchmarkStats, EntrySourceStats, GrpcOverheadStats, SourceStats};
use crate::table::{
    self, BlockSummaryRow, CoverageRow, LatencyRow, QuantileRow, ShredTypeRow, WinRow,
};
use crate::text;

verus! {

/// Whether a character is a digit.
pub open spec fn is_digit(c: char) -> bool {
    '0' <= c <= '9'
}

/// The number that the digits in a text spell, whatever stands between them.
pub open spec fn number_in(shown: Seq<char>) -> nat
    decreases shown.len(),
{
    if shown.len() == 0 {
        0
    } else {
        let before = number_in(shown.drop_last());
        if is_digit(shown.last()) {
            10 * before + (shown.last() as nat - '0' as nat) as nat
        } else {
            before
        }
    }
}

/// Whether a text has no digits.
pub open spec fn no_digits(shown: Seq<char>) -> bool {
    forall|i: int| 0 <= i < shown.len() ==> !is_digit(#[trigger] shown[i])
}

/// Whether a text ends in another.
pub open spec fn ends_in(shown: Seq<char>, end: Seq<char>) -> bool {
    end.len() <= shown.len() && shown.skip(shown.len() - end.len()) == end
}

proof fn lemma_push(shown: Seq<char>, c: char)
    ensures
        number_in(shown.push(c)) == (if is_digit(c) {
            (10 * number_in(shown) + (c as nat - '0' as nat)) as nat
        } else {
            number_in(shown)
        }),
{
    assert(shown.push(c).drop_last() =~= shown);
}

proof fn lemma_no_digits_behind(shown: Seq<char>, end: Seq<char>)
    requires
        no_digits(end),
    ensures
        number_in(shown + end) == number_in(shown),
    decreases end.len(),
{
    if end.len() == 0 {
        assert(shown + end =~= shown);
    } else {
        let rest = end.drop_last();
        assert forall|i: int| 0 <= i < rest.len() implies !is_digit(#[trigger] rest[i]) by {
            assert(rest[i] == end[i]);
        }
        lemma_no_digits_behind(shown, rest);
        assert((shown + end) =~= (shown + rest).push(end.last()));
        lemma_push(shown + rest, end.last());
        assert(!is_digit(end[end.len() - 1]));
    }
}

proof fn lemma_no_digits_before(start: Seq<char>, shown: Seq<char>)
    requires
        no_digits(start),
    ensures
        number_in(start + shown) == number_in(shown),
    decreases shown.len(),
{
    if shown.len() == 0 {
        assert(start + shown =~= shown + start);
        lemma_no_digits_behind(shown, start);
    } else {
        let rest = shown.drop_last();
        lemma_no_digits_before(start, rest);
        assert((start + shown) =~= (start + rest).push(shown.last()));
        lemma_push(start + rest, shown.last());
    }
}

proof fn lemma_digit(d: nat)
    requires
        d < 10,
    ensures
        is_digit(text::digit(d)),
        text::digit(d) as nat - '0' as nat == d,
{
}

/// A number in decimal digits is read as that number.
pub proof fn lemma_decimal_is_read(n: nat)
    ensures
        number_in(text::decimal(n)) == n,
        forall|i: int|
            0 <= i < text::decimal(n).len() ==> is_digit(#[trigger] text::decimal(n)[i]),
        text::decimal(n).len() > 0,
        n > 0 ==> text::decimal(n)[0] != '0',
    decreases n,
{
    if n < 10 {
        lemma_digit(n);
        assert(text::decimal(n) =~= Seq::<char>::empty().push(text::digit(n)));
        lemma_push(Seq::empty(), text::digit(n));
    } else {
        lemma_decimal_is_read(n / 10);
        lemma_digit(n % 10);
        lemma_push(text::decimal(n / 10), text::digit(n % 10));
    }
}

/// A number in groups of digits is read as that number, and a comma stands before every three of
/// its digits, counted from the end, and nowhere else.
pub proof fn lemma_grouped_is_read(n: nat)
    ensures
        number_in(text::grouped(n)) == n,
        text::grouped(n).len() > 0,
        text::grouped(n)[0] != ',',
        n > 0 ==> text::grouped(n)[0] != '0',
        forall|i: int|
            #![trigger text::grouped(n)[i]]
            0 <= i < text::grouped(n).len() ==> if (text::grouped(n).len() - i) % 4 == 0 {
                text::grouped(n)[i] == ','
            } else {
                is_digit(text::grouped(n)[i])
            },
    decreases n,
{
    let shown = text::grouped(n);
    if n < 1000 {
        lemma_decimal_is_read(n);
        lemma_short_decimal(n);
        assert(is_digit(text::decimal(n)[0]));
    } else {
        let before = text::grouped(n / 1000);
        lemma_grouped_is_read(n / 1000);
        let (a, b, c) = (n / 100 % 10, n / 10 % 10, n % 10);
        lemma_digit(a);
        lemma_digit(b);
        lemma_digit(c);
        let s1 = before.push(',');
        let s2 = s1.push(text::digit(a));
        let s3 = s2.push(text::digit(b));
        let s4 = s3.push(text::digit(c));
        lemma_push(before, ',');
        lemma_push(s1, text::digit(a));
        lemma_push(s2, text::digit(b));
        lemma_push(s3, text::digit(c));
        assert(shown =~= s4);
        assert(n == 1000 * (n / 1000) + 100 * a + 10 * b + c);
        assert forall|i: int|
            #![trigger shown[i]]
            0 <= i < shown.len() implies if (shown.len() - i) % 4 == 0 {
            shown[i] == ','
        } else {
            is_digit(shown[i])
        } by {
            if i < before.len() {
                assert(shown[i] == before[i]);
                assert((shown.len() - i) % 4 == (before.len() - i) % 4);
            }
        }
        assert(shown[0] == before[0]);
    }
}

proof fn lemma_short_decimal(n: nat)
    requires
        n < 1000,
    ensures
        text::decimal(n).len() <= 3,
{
    reveal_with_fuel(text::decimal, 3);
}

/// Padding puts spaces in front, and no more than are needed.
pub proof fn lemma_padding_is_spaces(shown: Seq<char>, width: nat)
    ensures
        ends_in(text::padded(shown, width), shown),
        text::padded(shown, width).len() == if shown.len() < width {
            width
        } else {
            shown.len()
        },
        forall|i: int|
            0 <= i < text::padded(shown, width).len() - shown.len() ==> #[trigger] text::padded(
                shown,
                width,
            )[i] == ' ',
        number_in(text::padded(shown, width)) == number_in(shown),
{
    let padded = text::padded(shown, width);
    assert(padded.skip(padded.len() - shown.len()) =~= shown);
    if shown.len() < width {
        lemma_no_digits_before(Seq::new((width - shown.len()) as nat, |i: int| ' '), shown);
    }
}

/// A number with one decimal place is read in tenths, of which the last digit is one.
proof fn lemma_one_place(x: binary64::BinaryView)
    ensures
        number_in(text::one_place(x)) == x.nearest_multiple(10),
        text::one_place(x).len() >= 3,
        text::one_place(x)[text::one_place(x).len() - 2] == '.',
{
    let t = x.nearest_multiple(10);
    let whole = text::decimal(t / 10);
    lemma_decimal_is_read(t / 10);
    lemma_digit(t % 10);
    lemma_push(whole, '.');
    lemma_push(whole.push('.'), text::digit(t % 10));
    assert(text::one_place(x) =~= whole.push('.').push(text::digit(t % 10)));
}

/// A number with two decimal places is read in hundredths.
proof fn lemma_two_places(x: binary64::BinaryView)
    ensures
        number_in(text::two_places(x)) == x.nearest_multiple(100),
        text::two_places(x).len() >= 4,
        text::two_places(x)[text::two_places(x).len() - 3] == '.',
{
    let t = x.nearest_multiple(100);
    let whole = text::decimal(t / 100);
    let (a, b) = (t / 10 % 10, t % 10);
    lemma_decimal_is_read(t / 100);
    lemma_digit(a);
    lemma_digit(b);
    let s1 = whole.push('.');
    let s2 = s1.push(text::digit(a));
    lemma_push(whole, '.');
    lemma_push(s1, text::digit(a));
    lemma_push(s2, text::digit(b));
    assert(text::two_places(x) =~= s2.push(text::digit(b)));
    assert(t == 100 * (t / 100) + 10 * a + b);
}

/// Whether a text shows a number of units, each of which is `unit`, that comes to a time, to within
/// half a unit.
pub open spec fn comes_near(shown: Seq<char>, ns: u64, unit: int) -> bool {
    &&& 2 * unit * number_in(shown) <= 2 * ns + unit
    &&& 2 * ns <= 2 * unit * number_in(shown) + unit
}

/// Whether a text shows a time: up to a microsecond in nanoseconds, up to a millisecond in tenths of
/// microseconds, up to a second in tenths of milliseconds, and from then on in hundredths of
/// seconds.
pub open spec fn shows_time(shown: Seq<char>, ns: u64) -> bool {
    let n = shown.len() as int;
    if ns == 0 {
        number_in(shown) == 0 && ends_in(shown, " µs"@)
    } else if ns < 1_000 {
        number_in(shown) == ns && ends_in(shown, " ns"@)
    } else if ns < 1_000_000 {
        comes_near(shown, ns, 100) && ends_in(shown, " µs"@) && shown[n - 5] == '.'
    } else if ns < 1_000_000_000 {
        comes_near(shown, ns, 100_000) && ends_in(shown, " ms"@) && shown[n - 5] == '.'
    } else {
        &&& ends_in(shown, "  s"@)
        &&& shown[n - 6] == '.'
        &&& ns < 0xe_0000_0000_0000 ==> comes_near(shown, ns, 10_000_000)
    }
}

/// A text in front of a unit.
proof fn lemma_unit_behind(shown: Seq<char>, width: nat, unit: Seq<char>, back: int)
    requires
        no_digits(unit),
        0 < back <= shown.len(),
    ensures
        ({
            let all = text::padded(shown, width) + unit;
            &&& number_in(all) == number_in(shown)
            &&& ends_in(all, unit)
            &&& all[all.len() - unit.len() - back] == shown[shown.len() - back]
        }),
{
    let padded = text::padded(shown, width);
    let all = padded + unit;
    lemma_padding_is_spaces(shown, width);
    lemma_no_digits_behind(padded, unit);
    assert(all.skip(all.len() - unit.len()) =~= unit);
    let start = padded.len() - shown.len();
    assert(padded.skip(start)[shown.len() - back] == padded[padded.len() - back]);
}

/// Every time that is shown is read as that time, to half of the last place that is shown.
pub proof fn lemma_time_is_read(ns: u64)
    ensures
        shows_time(table::ns_text(ns), ns),
{
    reveal_strlit("  0 µs");
    reveal_strlit(" ns");
    reveal_strlit(" µs");
    reveal_strlit(" ms");
    reveal_strlit("  s");
    if ns == 0 {
        let shown = "  0 µs"@;
        assert(shown.skip(3) =~= " µs"@);
        assert(shown =~= seq![' ', ' '] + (seq!['0'] + " µs"@));
        lemma_no_digits_before(seq![' ', ' '], seq!['0'] + " µs"@);
        lemma_no_digits_behind(seq!['0'], " µs"@);
        lemma_push(Seq::empty(), '0');
        assert(Seq::<char>::empty().push('0') =~= seq!['0']);
    } else if ns < 1_000 {
        lemma_decimal_is_read(ns as nat);
        lemma_unit_behind(text::decimal(ns as nat), 3, " ns"@, 1);
    } else if ns < 1_000_000 {
        let x = table::quotient(ns as nat, 1_000);
        lemma_one_place(x);
        decimals::lemma_quotient_to_places(ns as nat, 1_000, 10, 100);
        lemma_unit_behind(text::one_place(x), 5, " µs"@, 2);
    } else if ns < 1_000_000_000 {
        let x = table::quotient(ns as nat, 1_000_000);
        lemma_one_place(x);
        decimals::lemma_quotient_to_places(ns as nat, 1_000_000, 10, 100_000);
        lemma_unit_behind(text::one_place(x), 5, " ms"@, 2);
    } else {
        let x = table::quotient(ns as nat, 1_000_000_000);
        lemma_two_places(x);
        lemma_unit_behind(text::two_places(x), 5, "  s"@, 3);
        if ns < 0xe_0000_0000_0000 {
            decimals::lemma_quotient_to_places(ns as nat, 1_000_000_000, 100, 10_000_000);
        }
    }
}

/// Whether a text shows a share of a whole in percent, to within half a tenth; of nothing no share
/// is shown.
pub open spec fn shows_rate(shown: Seq<char>, part: u64, whole: u64) -> bool {
    if whole == 0 {
        no_digits(shown)
    } else {
        &&& ends_in(shown, "%"@)
        &&& shown[shown.len() - 3] == '.'
        &&& part <= whole < 0x100_0000_0000 ==> {
            &&& 2 * whole * number_in(shown) <= 2000 * part + whole
            &&& 2000 * part <= 2 * whole * number_in(shown) + whole
        }
    }
}

proof fn lemma_rate(part: u64, whole: u64, width: nat)
    requires
        whole > 0,
    ensures
        shows_rate(
            text::padded(text::one_place(table::percent(part as nat, whole as nat)), width) + "%"@,
            part,
            whole,
        ),
{
    reveal_strlit("%");
    let x = table::percent(part as nat, whole as nat);
    lemma_one_place(x);
    lemma_unit_behind(text::one_place(x), width, "%"@, 2);
    if part <= whole < 0x100_0000_0000 {
        if part > 0 {
            decimals::lemma_percent_to_tenths(part as nat, whole as nat);
        } else {
            lemma_nothing_is_zero(whole as nat);
            let shown = number_in(text::one_place(x));
            assert(2 * whole * shown == 0) by (nonlinear_arith)
                requires
                    shown == 0,
            ;
        }
    }
}

proof fn lemma_nothing_is_zero(whole: nat)
    ensures
        table::percent(0, whole).nearest_multiple(10) == 0,
{
    let hundred = binary64::BinaryView::of(100);
    let zero = binary64::BinaryView { mantissa: 0, exponent: 0 };
    assert(table::quotient(0, whole) == zero);
    assert(0 * hundred.mantissa == 0) by (nonlinear_arith);
    assert(table::percent(0, whole) == zero);
    vstd::arithmetic::power2::lemma2_to64();
    assert(binary64::scaled(0, 1, 0) == (0nat, 1nat));
}

/// Every coverage that is shown is read as the share that was received, to half of a tenth of a
/// percent; of nothing no share is shown.
pub proof fn lemma_coverage_is_read(received: u64, total: u64)
    ensures
        shows_rate(table::coverage_text(received, total), received, total),
{
    reveal_strlit("  N/A");
    if total > 0 {
        lemma_rate(received, total, 5);
    }
}

/// Every win rate that is shown is read as the share of all shreds that came first from the source.
pub proof fn lemma_win_rate_is_read(wins: u64, total: u64)
    ensures
        shows_rate(table::win_rate_text(wins, total), wins, total),
{
    reveal_strlit("N/A");
    if total > 0 {
        lemma_rate(wins, total, 0);
        let shown = text::one_place(table::percent(wins as nat, total as nat));
        assert(text::padded(shown, 0) == shown);
    }
}

/// Whether a text shows a number, and how many whole hundredths of a whole it is.
pub open spec fn shows_share(shown: Seq<char>, part: u64, whole: nat) -> bool {
    exists|number: Seq<char>, hundredths: Seq<char>|
        {
            &&& shown == #[trigger] (number + " ("@ + hundredths + "%)"@)
            &&& number_in(number) == part
            &&& whole > 0 ==> number_in(hundredths) * whole <= 100 * part < (number_in(hundredths)
                + 1) * whole
            &&& whole == 0 ==> number_in(hundredths) == 0
        }
}

/// Every share that is shown is read as the number, and as its share in whole percent.
pub proof fn lemma_share_is_read(part: u64, whole: nat)
    ensures
        shows_share(table::share_text(part, whole), part, whole),
{
    let number = text::grouped(part as nat);
    let share = if whole == 0 {
        0nat
    } else {
        (part * 100 / whole as int) as nat
    };
    let hundredths = text::decimal(share);
    lemma_grouped_is_read(part as nat);
    lemma_decimal_is_read(share);
    if whole > 0 {
        vstd::arithmetic::div_mod::lemma_fundamental_div_mod((part * 100) as int, whole as int);
        vstd::arithmetic::div_mod::lemma_mod_bound((part * 100) as int, whole as int);
        assert(share * whole == whole * share && (share + 1) * whole == whole * share + whole)
            by (nonlinear_arith);
    }
    assert(table::share_text(part, whole) == number + " ("@ + hundredths + "%)"@);
}

/// Whether `order` names each of `count` places once.
pub open spec fn each_once(order: Seq<usize>, count: nat) -> bool {
    &&& order.len() == count
    &&& order.no_duplicates()
    &&& forall|i: int| 0 <= i < order.len() ==> (#[trigger] order[i]) < count
}

proof fn lemma_up(keys: Seq<u64>, order: Seq<usize>)
    requires
        keys.len() <= usize::MAX,
        order::is_order(keys, order),
    ensures
        each_once(order, keys.len()),
        forall|i: int, j: int|
            #![trigger order[i], order[j]]
            0 <= i < j < order.len() ==> keys[order[i] as int] <= keys[order[j] as int],
{
    order::lemma_order_goes_up(keys, order);
}

proof fn lemma_down(keys: Seq<u64>, order: Seq<usize>)
    requires
        keys.len() <= usize::MAX,
        order::is_order(order::flipped(keys), order),
    ensures
        each_once(order, keys.len()),
        forall|i: int, j: int|
            #![trigger order[i], order[j]]
            0 <= i < j < order.len() ==> keys[order[i] as int] >= keys[order[j] as int],
{
    let turned = order::flipped(keys);
    order::lemma_order_goes_up(turned, order);
    assert forall|i: int, j: int|
        #![trigger order[i], order[j]]
        0 <= i < j < order.len() implies keys[order[i] as int] >= keys[order[j] as int] by {
        assert(order[i] < turned.len() && order[j] < turned.len());
        assert(turned[order[i] as int] <= turned[order[j] as int]);
    }
}

/// Whether the table of wins tells each source once, from the most wins down: how many shreds came
/// first from it, how many came at all, and what share of all shreds the first ones are.
pub open spec fn tells_wins(
    rows: Seq<WinRow>,
    order: Seq<usize>,
    sources: Seq<SourceStats>,
    total: u64,
) -> bool {
    &&& each_once(order, sources.len())
    &&& rows.len() == order.len()
    &&& forall|i: int, j: int|
        #![trigger order[i], order[j]]
        0 <= i < j < order.len() ==> sources[order[i] as int].wins >= sources[order[j] as int].wins
    &&& forall|i: int|
        #![trigger rows[i]]
        0 <= i < rows.len() ==> {
            let source = sources[order[i] as int];
            &&& rows[i].source@ == source.name@
            &&& number_in(rows[i].wins@) == source.wins
            &&& number_in(rows[i].total_received@) == source.received
            &&& shows_rate(rows[i].win_rate@, source.wins, total)
        }
}

/// The table of wins is read as what the sources won.
pub proof fn lemma_wins_are_read(rows: Seq<WinRow>, sources: Seq<SourceStats>, total: u64)
    requires
        sources.len() <= usize::MAX,
        table::is_win_table(rows, sources, total),
    ensures
        exists|order: Seq<usize>| #[trigger] tells_wins(rows, order, sources, total),
{
    let keys = table::win_keys(sources);
    let order = choose|order: Seq<usize>|
        {
            &&& #[trigger] order::is_order(order::flipped(keys), order)
            &&& rows.len() == order.len()
            &&& forall|i: int|
                0 <= i < rows.len() ==> table::is_win_row(
                    #[trigger] rows[i],
                    sources[order[i] as int],
                    total,
                )
        };
    lemma_down(keys, order);
    assert forall|i: int| #![trigger rows[i]] 0 <= i < rows.len() implies {
        let source = sources[order[i] as int];
        &&& rows[i].source@ == source.name@
        &&& number_in(rows[i].wins@) == source.wins
        &&& number_in(rows[i].total_received@) == source.received
        &&& shows_rate(rows[i].win_rate@, source.wins, total)
    } by {
        let source = sources[order[i] as int];
        lemma_grouped_is_read(source.wins as nat);
        lemma_grouped_is_read(source.received as nat);
        lemma_win_rate_is_read(source.wins, total);
    }
    assert(tells_wins(rows, order, sources, total));
}

/// Whether the table of coverage tells each source once, from the most shreds down: how many came
/// from it, what share of all that is, how many came again, and how many never came.
pub open spec fn tells_coverage(
    rows: Seq<CoverageRow>,
    order: Seq<usize>,
    sources: Seq<SourceStats>,
    total: u64,
) -> bool {
    &&& each_once(order, sources.len())
    &&& rows.len() == order.len()
    &&& forall|i: int, j: int|
        #![trigger order[i], order[j]]
        0 <= i < j < order.len() ==> sources[order[i] as int].received
            >= sources[order[j] as int].received
    &&& forall|i: int|
        #![trigger rows[i]]
        0 <= i < rows.len() ==> {
            let source = sources[order[i] as int];
            &&& rows[i].source@ == source.name@
            &&& number_in(rows[i].received@) == source.received
            &&& shows_rate(rows[i].coverage@, source.received, total)
            &&& number_in(rows[i].dupes@) == source.dupes
            &&& number_in(rows[i].missed@) == source.missed
        }
}

/// The table of coverage is read as what the sources delivered.
pub proof fn lemma_coverage_table_is_read(
    rows: Seq<CoverageRow>,
    sources: Seq<SourceStats>,
    total: u64,
)
    requires
        sources.len() <= usize::MAX,
        table::is_coverage_table(rows, sources, total),
    ensures
        exists|order: Seq<usize>| #[trigger] tells_coverage(rows, order, sources, total),
{
    let keys = table::received_keys(sources);
    let order = choose|order: Seq<usize>|
        {
            &&& #[trigger] order::is_order(order::flipped(keys), order)
            &&& rows.len() == order.len()
            &&& forall|i: int|
                0 <= i < rows.len() ==> table::is_coverage_row(
                    #[trigger] rows[i],
                    sources[order[i] as int],
                    total,
                )
        };
    lemma_down(keys, order);
    assert forall|i: int| #![trigger rows[i]] 0 <= i < rows.len() implies {
        let source = sources[order[i] as int];
        &&& rows[i].source@ == source.name@
        &&& number_in(rows[i].received@) == source.received
        &&& shows_rate(rows[i].coverage@, source.received, total)
        &&& number_in(rows[i].dupes@) == source.dupes
        &&& number_in(rows[i].missed@) == source.missed
    } by {
        let source = sources[order[i] as int];
        lemma_grouped_is_read(source.received as nat);
        lemma_grouped_is_read(source.dupes as nat);
        lemma_grouped_is_read(source.missed as nat);
        lemma_coverage_is_read(source.received, total);
    }
    assert(tells_coverage(rows, order, sources, total));
}

/// Whether the table of kinds tells each source once, from the most shreds down: how many data and
/// how many code shreds came from it, and what shares they are of both.
pub open spec fn tells_kinds(
    rows: Seq<ShredTypeRow>,
    order: Seq<usize>,
    sources: Seq<SourceStats>,
) -> bool {
    &&& each_once(order, sources.len())
    &&& rows.len() == order.len()
    &&& forall|i: int, j: int|
        #![trigger order[i], order[j]]
        0 <= i < j < order.len() ==> sources[order[i] as int].received
            >= sources[order[j] as int].received
    &&& forall|i: int|
        #![trigger rows[i]]
        0 <= i < rows.len() ==> {
            let source = sources[order[i] as int];
            let all = (source.data_shreds + source.code_shreds) as nat;
            &&& rows[i].source@ == source.name@
            &&& shows_share(rows[i].data@, source.data_shreds, all)
            &&& shows_share(rows[i].code@, source.code_shreds, all)
        }
}

/// The table of kinds is read as what the sources delivered of each.
pub proof fn lemma_kinds_are_read(rows: Seq<ShredTypeRow>, sources: Seq<SourceStats>)
    requires
        sources.len() <= usize::MAX,
        table::is_shred_type_table(rows, sources),
    ensures
        exists|order: Seq<usize>| #[trigger] tells_kinds(rows, order, sources),
{
    let keys = table::received_keys(sources);
    let order = choose|order: Seq<usize>|
        {
            &&& #[trigger] order::is_order(order::flipped(keys), order)
            &&& rows.len() == order.len()
            &&& forall|i: int|
                0 <= i < rows.len() ==> table::is_shred_type_row(
                    #[trigger] rows[i],
                    sources[order[i] as int],
                )
        };
    lemma_down(keys, order);
    assert forall|i: int| #![trigger rows[i]] 0 <= i < rows.len() implies {
        let source = sources[order[i] as int];
        let all = (source.data_shreds + source.code_shreds) as nat;
        &&& rows[i].source@ == source.name@
        &&& shows_share(rows[i].data@, source.data_shreds, all)
        &&& shows_share(rows[i].code@, source.code_shreds, all)
    } by {
        let source = sources[order[i] as int];
        let all = (source.data_shreds + source.code_shreds) as nat;
        lemma_share_is_read(source.data_shreds, all);
        lemma_share_is_read(source.code_shreds, all);
    }
    assert(tells_kinds(rows, order, sources));
}

/// Whether the table of latencies tells each source once, from the lowest median up: how many
/// shreds came from it, and the percentiles and the greatest of its latencies.
pub open spec fn tells_latencies(
    rows: Seq<LatencyRow>,
    order: Seq<usize>,
    sources: Seq<SourceStats>,
) -> bool {
    &&& each_once(order, sources.len())
    &&& rows.len() == order.len()
    &&& forall|i: int, j: int|
        #![trigger order[i], order[j]]
        0 <= i < j < order.len() ==> percentiles::percentiles(
            sources[order[i] as int].latency_ns@,
        ).p50 <= percentiles::percentiles(sources[order[j] as int].latency_ns@).p50
    &&& forall|i: int|
        #![trigger rows[i]]
        0 <= i < rows.len() ==> {
            let source = sources[order[i] as int];
            let p = percentiles::percentiles(source.latency_ns@);
            &&& rows[i].source@ == source.name@
            &&& number_in(rows[i].shreds@) == source.received
            &&& shows_time(rows[i].p50@, p.p50)
            &&& shows_time(rows[i].p90@, p.p90)
            &&& shows_time(rows[i].p95@, p.p95)
            &&& shows_time(rows[i].p99@, p.p99)
            &&& shows_time(rows[i].p99_9@, p.p99_9)
            &&& shows_time(rows[i].max@, p.max)
        }
}

/// The table of latencies is read as how far the sources were behind.
pub proof fn lemma_latencies_are_read(rows: Seq<LatencyRow>, sources: Seq<SourceStats>)
    requires
        sources.len() <= usize::MAX,
        table::is_latency_table(rows, sources),
    ensures
        exists|order: Seq<usize>| #[trigger] tells_latencies(rows, order, sources),
{
    let keys = table::latency_keys(sources);
    let order = choose|order: Seq<usize>|
        {
            &&& #[trigger] order::is_order(keys, order)
            &&& rows.len() == order.len()
            &&& forall|i: int|
                0 <= i < rows.len() ==> table::is_latency_row(
                    #[trigger] rows[i],
                    sources[order[i] as int],
                )
        };
    lemma_up(keys, order);
    assert forall|i: int, j: int|
        #![trigger order[i], order[j]]
        0 <= i < j < order.len() implies percentiles::percentiles(
        sources[order[i] as int].latency_ns@,
    ).p50 <= percentiles::percentiles(sources[order[j] as int].latency_ns@).p50 by {
        assert(keys[order[i] as int] <= keys[order[j] as int]);
    }
    assert forall|i: int| #![trigger rows[i]] 0 <= i < rows.len() implies {
        let source = sources[order[i] as int];
        let p = percentiles::percentiles(source.latency_ns@);
        &&& rows[i].source@ == source.name@
        &&& number_in(rows[i].shreds@) == source.received
        &&& shows_time(rows[i].p50@, p.p50)
        &&& shows_time(rows[i].p90@, p.p90)
        &&& shows_time(rows[i].p95@, p.p95)
        &&& shows_time(rows[i].p99@, p.p99)
        &&& shows_time(rows[i].p99_9@, p.p99_9)
        &&& shows_time(rows[i].max@, p.max)
    } by {
        let source = sources[order[i] as int];
        let p = percentiles::percentiles(source.latency_ns@);
        lemma_grouped_is_read(source.received as nat);
        lemma_time_is_read(p.p50);
        lemma_time_is_read(p.p90);
        lemma_time_is_read(p.p95);
        lemma_time_is_read(p.p99);
        lemma_time_is_read(p.p99_9);
        lemma_time_is_read(p.max);
    }
    assert(tells_latencies(rows, order, sources));
}

/// Whether a table of quantiles tells each sample that counts anything once, from the lowest median
/// up.
pub open spec fn tells_quantiles(
    rows: Seq<QuantileRow>,
    order: Seq<usize>,
    shown: Seq<table::SampleView>,
) -> bool {
    &&& each_once(order, shown.len())
    &&& rows.len() == order.len()
    &&& forall|i: int, j: int|
        #![trigger order[i], order[j]]
        0 <= i < j < order.len() ==> percentiles::percentiles(
            shown[order[i] as int].latency_ns,
        ).p50 <= percentiles::percentiles(shown[order[j] as int].latency_ns).p50
    &&& forall|i: int|
        #![trigger rows[i]]
        0 <= i < rows.len() ==> {
            let sample = shown[order[i] as int];
            let p = percentiles::percentiles(sample.latency_ns);
            &&& rows[i].source@ == sample.name
            &&& number_in(rows[i].count@) == sample.count
            &&& shows_time(rows[i].p50@, p.p50)
            &&& shows_time(rows[i].p90@, p.p90)
            &&& shows_time(rows[i].p95@, p.p95)
            &&& shows_time(rows[i].p99@, p.p99)
            &&& shows_time(rows[i].max@, p.max)
        }
}

/// The samples that count anything.
pub open spec fn counting(samples: Seq<table::SampleView>) -> Seq<table::SampleView> {
    samples.filter(|sample: table::SampleView| sample.count > 0)
}

/// A table of quantiles is read as the samples that count anything.
pub proof fn lemma_quantiles_are_read(rows: Seq<QuantileRow>, samples: Seq<table::SampleView>)
    requires
        samples.len() <= usize::MAX,
        table::is_quantile_table(rows, samples),
    ensures
        exists|order: Seq<usize>| #[trigger]
            tells_quantiles(rows, order, counting(samples)),
{
    let some = |sample: table::SampleView| sample.count > 0;
    assert(table::counts() =~= some);
    let shown = samples.filter(table::counts());
    assert(counting(samples) == samples.filter(some));
    assert(shown == counting(samples));
    samples.lemma_filter_len(table::counts());
    let keys = table::medians(shown);
    let order = choose|order: Seq<usize>|
        {
            &&& #[trigger] order::is_order(keys, order)
            &&& rows.len() == order.len()
            &&& forall|i: int|
                0 <= i < rows.len() ==> table::is_quantile_row(
                    #[trigger] rows[i],
                    shown[order[i] as int],
                )
        };
    lemma_up(keys, order);
    assert forall|i: int, j: int|
        #![trigger order[i], order[j]]
        0 <= i < j < order.len() implies percentiles::percentiles(
        shown[order[i] as int].latency_ns,
    ).p50 <= percentiles::percentiles(shown[order[j] as int].latency_ns).p50 by {
        assert(keys[order[i] as int] <= keys[order[j] as int]);
    }
    assert forall|i: int| #![trigger rows[i]] 0 <= i < rows.len() implies {
        let sample = shown[order[i] as int];
        let p = percentiles::percentiles(sample.latency_ns);
        &&& rows[i].source@ == sample.name
        &&& number_in(rows[i].count@) == sample.count
        &&& shows_time(rows[i].p50@, p.p50)
        &&& shows_time(rows[i].p90@, p.p90)
        &&& shows_time(rows[i].p95@, p.p95)
        &&& shows_time(rows[i].p99@, p.p99)
        &&& shows_time(rows[i].max@, p.max)
    } by {
        let sample = shown[order[i] as int];
        let p = percentiles::percentiles(sample.latency_ns);
        lemma_grouped_is_read(sample.count as nat);
        lemma_time_is_read(p.p50);
        lemma_time_is_read(p.p90);
        lemma_time_is_read(p.p95);
        lemma_time_is_read(p.p99);
        lemma_time_is_read(p.max);
    }
    assert(tells_quantiles(rows, order, shown));
}

/// Whether the table of blocks tells each source once, from the most blocks down.
pub open spec fn tells_blocks(
    rows: Seq<BlockSummaryRow>,
    order: Seq<usize>,
    sources: Seq<BlockSourceStats>,
    total_slots: u64,
) -> bool {
    &&& each_once(order, sources.len())
    &&& rows.len() == order.len()
    &&& forall|i: int, j: int|
        #![trigger order[i], order[j]]
        0 <= i < j < order.len() ==> sources[order[i] as int].completed_slots
            >= sources[order[j] as int].completed_slots
    &&& forall|i: int|
        #![trigger rows[i]]
        0 <= i < rows.len() ==> {
            let source = sources[order[i] as int];
            let p = percentiles::percentiles(source.reconstruction_cpu_ns@);
            &&& rows[i].source@ == source.name@
            &&& number_in(rows[i].complete@) == source.completed_slots
            &&& shows_rate(rows[i].coverage@, source.completed_slots, total_slots)
            &&& number_in(rows[i].wins@) == source.wins
            &&& number_in(rows[i].recovered_data@) == source.recovered_data_shreds
            &&& number_in(rows[i].recovered_fec_sets@) == source.fec_sets_recovered
            &&& number_in(rows[i].received_shreds@) == source.received_shreds
            &&& number_in(rows[i].expected_data_shreds@) == source.expected_data_shreds
            &&& number_in(rows[i].entries@) == source.entries
            &&& number_in(rows[i].transactions@) == source.transactions
            &&& shows_time(rows[i].cpu_p50@, p.p50)
        }
}

/// The table of blocks is read as what the blocks of the sources amount to.
pub proof fn lemma_blocks_are_read(
    rows: Seq<BlockSummaryRow>,
    sources: Seq<BlockSourceStats>,
    total_slots: u64,
)
    requires
        sources.len() <= usize::MAX,
        table::is_block_summary_table(rows, sources, total_slots),
    ensures
        exists|order: Seq<usize>| #[trigger] tells_blocks(rows, order, sources, total_slots),
{
    let keys = table::completed_keys(sources);
    let order = choose|order: Seq<usize>|
        {
            &&& #[trigger] order::is_order(order::flipped(keys), order)
            &&& rows.len() == order.len()
            &&& forall|i: int|
                0 <= i < rows.len() ==> table::is_block_summary_row(
                    #[trigger] rows[i],
                    sources[order[i] as int],
                    total_slots,
                )
        };
    lemma_down(keys, order);
    assert forall|i: int| #![trigger rows[i]] 0 <= i < rows.len() implies {
        let source = sources[order[i] as int];
        let p = percentiles::percentiles(source.reconstruction_cpu_ns@);
        &&& rows[i].source@ == source.name@
        &&& number_in(rows[i].complete@) == source.completed_slots
        &&& shows_rate(rows[i].coverage@, source.completed_slots, total_slots)
        &&& number_in(rows[i].wins@) == source.wins
        &&& number_in(rows[i].recovered_data@) == source.recovered_data_shreds
        &&& number_in(rows[i].recovered_fec_sets@) == source.fec_sets_recovered
        &&& number_in(rows[i].received_shreds@) == source.received_shreds
        &&& number_in(rows[i].expected_data_shreds@) == source.expected_data_shreds
        &&& number_in(rows[i].entries@) == source.entries
        &&& number_in(rows[i].transactions@) == source.transactions
        &&& shows_time(rows[i].cpu_p50@, p.p50)
    } by {
        let source = sources[order[i] as int];
        let p = percentiles::percentiles(source.reconstruction_cpu_ns@);
        lemma_grouped_is_read(source.completed_slots as nat);
        lemma_coverage_is_read(source.completed_slots, total_slots);
        lemma_grouped_is_read(source.wins as nat);
        lemma_grouped_is_read(source.recovered_data_shreds as nat);
        lemma_grouped_is_read(source.fec_sets_recovered as nat);
        lemma_grouped_is_read(source.received_shreds as nat);
        lemma_grouped_is_read(source.expected_data_shreds as nat);
        lemma_grouped_is_read(source.entries as nat);
        lemma_grouped_is_read(source.transactions as nat);
        lemma_time_is_read(p.p50);
    }
    assert(tells_blocks(rows, order, sources, total_slots));
}

/// What a report says of a run can be read back from it, table by table: of sources that deliver
/// shreds how far behind they were, what they won, what they delivered, and of which kind; of blocks
/// when they were there, how long they took and what they amount to, if there are any; and of
/// sources that do not deliver shreds how long slots and account updates took.
pub proof fn lemma_report_is_read(report: report::Report, stats: BenchmarkStats)
    requires
        report::shows(report, stats),
        stats.sources@.len() <= usize::MAX,
        stats.block_stats.sources@.len() <= usize::MAX,
        stats.slot_stats.entry_sources@.len() <= usize::MAX,
        stats.grpc_overhead@.len() <= usize::MAX,
    ensures
        ({
            let sources = stats.sources@;
            let total = stats.total_unique_shreds;
            &&& exists|order: Seq<usize>| #[trigger]
                tells_latencies(report.latency@, order, sources)
            &&& exists|order: Seq<usize>| #[trigger] tells_wins(report.wins@, order, sources, total)
            &&& exists|order: Seq<usize>| #[trigger]
                tells_coverage(report.coverage@, order, sources, total)
            &&& exists|order: Seq<usize>| #[trigger]
                tells_kinds(report.shred_types@, order, sources)
        }),
        report.blocks is Some <==> stats.block_stats.total_slots > 0,
        report.blocks matches Some(blocks) ==> {
            let sources = stats.block_stats.sources@;
            let behind = sources.map_values(
                |source: BlockSourceStats|
                    table::SampleView {
                        name: source.name@,
                        count: source.completed_slots,
                        latency_ns: source.relative_latency_ns@,
                    },
            );
            let assembling = sources.map_values(
                |source: BlockSourceStats|
                    table::SampleView {
                        name: source.name@,
                        count: source.completed_slots,
                        latency_ns: source.assembly_latency_ns@,
                    },
            );
            &&& reads_as(blocks.availability@, behind)
            &&& reads_as(blocks.assembly@, assembling)
            &&& exists|order: Seq<usize>| #[trigger]
                tells_blocks(
                    blocks.summary@,
                    order,
                    sources,
                    stats.block_stats.total_slots,
                )
        },
        reads_as(
            report.slots@,
            stats.slot_stats.entry_sources@.map_values(
                |source: EntrySourceStats|
                    table::SampleView {
                        name: source.name@,
                        count: source.slots_seen,
                        latency_ns: source.latency_ns@,
                    },
            ),
        ),
        reads_as(
            report.grpc@,
            stats.grpc_overhead@.map_values(
                |source: GrpcOverheadStats|
                    table::SampleView {
                        name: source.name@,
                        count: source.samples,
                        latency_ns: source.latency_ns@,
                    },
            ),
        ),
{
    lemma_latencies_are_read(report.latency@, stats.sources@);
    lemma_wins_are_read(report.wins@, stats.sources@, stats.total_unique_shreds);
    lemma_coverage_table_is_read(report.coverage@, stats.sources@, stats.total_unique_shreds);
    lemma_kinds_are_read(report.shred_types@, stats.sources@);
    if let Some(blocks) = report.blocks {
        let sources = stats.block_stats.sources@;
        lemma_quantiles_are_read(blocks.availability@, table::availability_samples(sources));
        lemma_quantiles_are_read(blocks.assembly@, table::assembly_samples(sources));
        lemma_blocks_are_read(blocks.summary@, sources, stats.block_stats.total_slots);
        assert(table::availability_samples(sources) =~= sources.map_values(
            |source: BlockSourceStats|
                table::SampleView {
                    name: source.name@,
                    count: source.completed_slots,
                    latency_ns: source.relative_latency_ns@,
                },
        ));
        assert(table::assembly_samples(sources) =~= sources.map_values(
            |source: BlockSourceStats|
                table::SampleView {
                    name: source.name@,
                    count: source.completed_slots,
                    latency_ns: source.assembly_latency_ns@,
                },
        ));
    }
    let slots = stats.slot_stats.entry_sources@;
    lemma_quantiles_are_read(report.slots@, table::slot_samples(slots));
    assert(table::slot_samples(slots) =~= slots.map_values(
        |source: EntrySourceStats|
            table::SampleView {
                name: source.name@,
                count: source.slots_seen,
                latency_ns: source.latency_ns@,
            },
    ));
    let updates = stats.grpc_overhead@;
    lemma_quantiles_are_read(report.grpc@, table::grpc_samples(updates));
    assert(table::grpc_samples(updates) =~= updates.map_values(
        |source: GrpcOverheadStats|
            table::SampleView {
                name: source.name@,
                count: source.samples,
                latency_ns: source.latency_ns@,
            },
    ));
}

/// Whether a table of quantiles tells the samples that count anything.
pub open spec fn reads_as(rows: Seq<QuantileRow>, samples: Seq<table::SampleView>) -> bool {
    exists|order: Seq<usize>| #[trigger] tells_quantiles(rows, order, counting(samples))
}

/// The header of a report is read as how long the run was, how many shreds came, how many sources
/// there were, which slots were seen, and whose slots the run was limited to, if it was.
pub proof fn lemma_header_is_read(
    report: report::Report,
    stats: BenchmarkStats,
    seconds: Seq<char>,
    leader: Option<Seq<char>>,
)
    requires
        report::reports(report, stats, seconds, leader),
    ensures
        exists|shreds: Seq<char>, count: Seq<char>|
            {
                &&& report.title@ == #[trigger] (" SHRED BENCHMARK  ·  "@ + seconds + "s  ·  "@
                    + shreds + " unique shreds  ·  "@ + count + " sources "@)
                &&& number_in(shreds) == stats.total_unique_shreds
                &&& number_in(count) == stats.sources@.len()
            },
        exists|first: Seq<char>, last: Seq<char>, count: Seq<char>|
            {
                &&& report.slots_line@ == #[trigger] ("Slots: "@ + first + " → "@ + last + " ("@
                    + count + " observed)"@)
                &&& number_in(first) == stats.min_slot
                &&& number_in(last) == stats.max_slot
                &&& number_in(count) == stats.slot_stats.total_slots
            },
        report.leader_line is Some <==> leader is Some,
        leader matches Some(pubkey) ==> ends_in(report.leader_line->0@, pubkey),
{
    let shreds = text::grouped(stats.total_unique_shreds as nat);
    let count = text::decimal(stats.sources@.len());
    lemma_grouped_is_read(stats.total_unique_shreds as nat);
    lemma_decimal_is_read(stats.sources@.len());
    assert(report.title@ == " SHRED BENCHMARK  ·  "@ + seconds + "s  ·  "@ + shreds
        + " unique shreds  ·  "@ + count + " sources "@);
    let first = text::grouped(stats.min_slot as nat);
    let last = text::grouped(stats.max_slot as nat);
    let seen = text::grouped(stats.slot_stats.total_slots as nat);
    lemma_grouped_is_read(stats.min_slot as nat);
    lemma_grouped_is_read(stats.max_slot as nat);
    lemma_grouped_is_read(stats.slot_stats.total_slots as nat);
    assert(report.slots_line@ == "Slots: "@ + first + " → "@ + last + " ("@ + seen
        + " observed)"@);
    if let Some(pubkey) = leader {
        let line = report.leader_line->0@;
        assert(line.skip(line.len() - pubkey.len()) =~= pubkey);
    }
}

} // verus!
