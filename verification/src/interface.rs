//! The address of a network interface, out of what `ip addr show` prints.

use vstd::prelude::*;

verus! {

/// Whether a character is white space, as Unicode has it.
pub open spec fn is_white(c: char) -> bool {
    ||| '\u{9}' <= c <= '\u{d}'
    ||| c == ' '
    ||| c == '\u{85}'
    ||| c == '\u{a0}'
    ||| c == '\u{1680}'
    ||| '\u{2000}' <= c <= '\u{200a}'
    ||| c == '\u{2028}'
    ||| c == '\u{2029}'
    ||| c == '\u{202f}'
    ||| c == '\u{205f}'
    ||| c == '\u{3000}'
}

/// The first place from `from` on that is not white space, or `end`.
pub open spec fn past_white(text: Seq<char>, from: int, end: int) -> int
    decreases end - from,
{
    if from < end && is_white(text[from]) {
        past_white(text, from + 1, end)
    } else {
        from
    }
}

/// The first place from `from` on that is white space or a slash, or `end`.
pub open spec fn past_address(text: Seq<char>, from: int, end: int) -> int
    decreases end - from,
{
    if from < end && !is_white(text[from]) && text[from] != '/' {
        past_address(text, from + 1, end)
    } else {
        from
    }
}

/// Where the line ends that `from` is in.
pub open spec fn line_end(text: Seq<char>, from: int) -> int
    decreases text.len() - from,
{
    if from < text.len() && text[from] != '\n' {
        line_end(text, from + 1)
    } else {
        from
    }
}

/// Whether the word `inet` and a space are at a place.
pub open spec fn says_inet(text: Seq<char>, at: int, end: int) -> bool {
    &&& at + 5 <= end
    &&& text[at] == 'i'
    &&& text[at + 1] == 'n'
    &&& text[at + 2] == 'e'
    &&& text[at + 3] == 't'
    &&& text[at + 4] == ' '
}

/// Where a line gives an IPv4 address: the word behind `inet` that the line starts with, up to a
/// slash.
pub open spec fn address_in_line(text: Seq<char>, start: int, end: int) -> Option<(int, int)> {
    let first = past_white(text, start, end);
    let word = past_white(text, first + 4, end);
    if says_inet(text, first, end) && word < end {
        Some((word, past_address(text, word, end)))
    } else {
        None
    }
}

/// The address in the first line, from `start` on, that gives one.
pub open spec fn address_from(text: Seq<char>, start: int) -> Option<Seq<char>>
    decreases text.len() - start,
{
    let end = line_end(text, start);
    match address_in_line(text, start, end) {
        Some((from, to)) => Some(text.subrange(from, to)),
        None => if start <= end < text.len() {
            address_from(text, end + 1)
        } else {
            None
        },
    }
}

/// Whether a character is white space.
fn white(c: char) -> (is: bool)
    ensures
        is == is_white(c),
{
    ('\u{9}' <= c && c <= '\u{d}') || c == ' ' || c == '\u{85}' || c == '\u{a0}' || c == '\u{1680}'
        || ('\u{2000}' <= c && c <= '\u{200a}') || c == '\u{2028}' || c == '\u{2029}' || c
        == '\u{202f}' || c == '\u{205f}' || c == '\u{3000}'
}

/// The characters of a text.
fn characters(text: &str) -> (chars: Vec<char>)
    ensures
        chars@ == text@,
{
    let mut chars: Vec<char> = Vec::new();
    for c in walk: text.chars()
        invariant
            chars@ =~= walk.seq().take(walk.index()),
    {
        chars.push(c);
    }
    assert(chars@ =~= text@);
    chars
}

fn skip_white(text: &Vec<char>, from: usize, end: usize) -> (at: usize)
    requires
        from <= end <= text@.len(),
    ensures
        at == past_white(text@, from as int, end as int),
        from <= at <= end,
{
    let mut at: usize = from;
    while at < end && white(text[at])
        invariant
            from <= at <= end <= text@.len(),
            past_white(text@, from as int, end as int) == past_white(
                text@,
                at as int,
                end as int,
            ),
        decreases end - at,
    {
        at = at + 1;
    }
    at
}

fn skip_address(text: &Vec<char>, from: usize, end: usize) -> (at: usize)
    requires
        from <= end <= text@.len(),
    ensures
        at == past_address(text@, from as int, end as int),
        from <= at <= end,
{
    let mut at: usize = from;
    while at < end && !white(text[at]) && text[at] != '/'
        invariant
            from <= at <= end <= text@.len(),
            past_address(text@, from as int, end as int) == past_address(
                text@,
                at as int,
                end as int,
            ),
        decreases end - at,
    {
        at = at + 1;
    }
    at
}

fn find_line_end(text: &Vec<char>, from: usize) -> (at: usize)
    requires
        from <= text@.len(),
    ensures
        at == line_end(text@, from as int),
        from <= at <= text@.len(),
{
    let mut at: usize = from;
    while at < text.len() && text[at] != '\n'
        invariant
            from <= at <= text@.len(),
            line_end(text@, from as int) == line_end(text@, at as int),
        decreases text@.len() - at,
    {
        at = at + 1;
    }
    at
}

/// Finds the address that a line gives.
fn find_in_line(text: &Vec<char>, start: usize, end: usize) -> (found: Option<(usize, usize)>)
    requires
        start <= end <= text@.len(),
    ensures
        match found {
            Some((from, to)) => address_in_line(text@, start as int, end as int) == Some(
                (from as int, to as int),
            ) && from <= to <= end,
            None => address_in_line(text@, start as int, end as int) is None,
        },
{
    let first: usize = skip_white(text, start, end);
    if end - first < 5 || text[first] != 'i' || text[first + 1] != 'n' || text[first + 2] != 'e'
        || text[first + 3] != 't' || text[first + 4] != ' ' {
        return None;
    }
    let word: usize = skip_white(text, first + 4, end);
    if word == end {
        return None;
    }
    Some((word, skip_address(text, word, end)))
}

/// The text of the first IPv4 address that `ip addr show` prints for an interface.
pub fn inet_address(output: &str) -> (address: Option<String>)
    ensures
        match address {
            Some(address) => address_from(output@, 0) == Some(address@),
            None => address_from(output@, 0) is None,
        },
{
    let text: Vec<char> = characters(output);
    let mut start: usize = 0;
    loop
        invariant
            text@ == output@,
            start <= text@.len(),
            address_from(text@, 0) == address_from(text@, start as int),
        decreases text@.len() - start,
    {
        let end: usize = find_line_end(&text, start);
        if let Some((from, to)) = find_in_line(&text, start, end) {
            let mut address = String::new();
            let mut n: usize = from;
            while n < to
                invariant
                    from <= n <= to <= text@.len(),
                    address@ == text@.subrange(from as int, n as int),
                decreases to - n,
            {
                address.push(text[n]);
                assert(address@ =~= text@.subrange(from as int, n + 1));
                n = n + 1;
            }
            return Some(address);
        }
        if end >= text.len() {
            return None;
        }
        start = end + 1;
    }
}

/// Whether all characters are white space within a line.
pub open spec fn blank(text: Seq<char>) -> bool {
    forall|i: int| 0 <= i < text.len() ==> is_white(#[trigger] text[i]) && text[i] != '\n'
}

/// Whether no character is white space or a slash.
pub open spec fn plain_word(text: Seq<char>) -> bool {
    forall|i: int| 0 <= i < text.len() ==> !is_white(#[trigger] text[i]) && text[i] != '/'
}

/// Whether a text is all of one line.
pub open spec fn one_line(text: Seq<char>) -> bool {
    forall|i: int| 0 <= i < text.len() ==> #[trigger] text[i] != '\n'
}

proof fn lemma_past_white(text: Seq<char>, from: int, to: int, end: int)
    requires
        from <= to <= end,
        forall|i: int| from <= i < to ==> is_white(#[trigger] text[i]),
        to < end ==> !is_white(text[to]),
    ensures
        past_white(text, from, end) == to,
    decreases to - from,
{
    if from < to {
        lemma_past_white(text, from + 1, to, end);
    }
}

proof fn lemma_past_address(text: Seq<char>, from: int, to: int, end: int)
    requires
        from <= to <= end,
        forall|i: int| from <= i < to ==> !is_white(#[trigger] text[i]) && text[i] != '/',
        to < end ==> is_white(text[to]) || text[to] == '/',
    ensures
        past_address(text, from, end) == to,
    decreases to - from,
{
    if from < to {
        lemma_past_address(text, from + 1, to, end);
    }
}

proof fn lemma_line_end(text: Seq<char>, from: int, to: int)
    requires
        from <= to <= text.len(),
        forall|i: int| from <= i < to ==> #[trigger] text[i] != '\n',
        to < text.len() ==> text[to] == '\n',
    ensures
        line_end(text, from) == to,
    decreases to - from,
{
    if from < to {
        lemma_line_end(text, from + 1, to);
    }
}

/// The word behind `inet` at the start of a line is the address, up to a slash or white space,
/// whatever the line is indented by and whatever follows.
pub proof fn lemma_inet_line_gives_address(
    indent: Seq<char>,
    gap: Seq<char>,
    address: Seq<char>,
    tail: Seq<char>,
    rest: Seq<char>,
)
    requires
        blank(indent),
        blank(gap),
        plain_word(address),
        one_line(tail),
        tail.len() > 0 ==> is_white(tail[0]) || tail[0] == '/',
        address.len() > 0 || (tail.len() > 0 && tail[0] == '/'),
        rest.len() > 0 ==> rest[0] == '\n',
    ensures
        address_from(
            indent + (seq!['i', 'n', 'e', 't', ' '] + (gap + (address + (tail + rest)))),
            0,
        ) == Some(address),
{
    let inet = seq!['i', 'n', 'e', 't', ' '];
    let text = indent + (inet + (gap + (address + (tail + rest))));
    let a1 = indent.len() as int;
    let a2 = a1 + 5;
    let a3 = a2 + gap.len();
    let a4 = a3 + address.len();
    let end = a4 + tail.len();
    assert forall|i: int| 0 <= i < end implies #[trigger] text[i] == (if i < a1 {
        indent[i]
    } else if i < a2 {
        inet[i - a1]
    } else if i < a3 {
        gap[i - a2]
    } else if i < a4 {
        address[i - a3]
    } else {
        tail[i - a4]
    }) by {}
    if end < text.len() {
        assert(text[end] == rest[0]);
    }
    assert(!is_white('i'));
    assert(is_white('\n') && is_white(' '));
    assert forall|i: int| 0 <= i < end implies #[trigger] text[i] != '\n' by {
        if a3 <= i < a4 {
            assert(!is_white(address[i - a3]));
        }
    }
    lemma_line_end(text, 0, end);
    lemma_past_white(text, 0, a1, end);
    assert(text[a1] == 'i' && text[a1 + 1] == 'n' && text[a1 + 2] == 'e' && text[a1 + 3] == 't'
        && text[a1 + 4] == ' ');
    assert(a3 < end && !is_white(text[a3])) by {
        if address.len() > 0 {
            assert(text[a3] == address[0]);
        } else {
            assert(text[a3] == tail[0]);
        }
    }
    lemma_past_white(text, a1 + 4, a3, end);
    lemma_past_address(text, a3, a4, end);
    assert(text.subrange(a3, a4) =~= address);
}

/// What comes of a text depends on nothing in front of where it is looked at.
proof fn lemma_shift(text: Seq<char>, skipped: int, start: int)
    requires
        0 <= skipped <= start <= text.len(),
    ensures
        address_from(text, start) == address_from(text.skip(skipped), start - skipped),
    decreases text.len() - start,
{
    let rest = text.skip(skipped);
    lemma_line_shift(text, skipped, start);
    let end = line_end(text, start);
    assert forall|from: int| skipped <= from implies #[trigger] past_white(text, from, end)
        == past_white(rest, from - skipped, end - skipped) + skipped by {
        lemma_white_shift(text, skipped, from, end);
    }
    assert forall|from: int| skipped <= from implies #[trigger] past_address(text, from, end)
        == past_address(rest, from - skipped, end - skipped) + skipped by {
        lemma_address_shift(text, skipped, from, end);
    }
    let first = past_white(text, start, end);
    lemma_white_moves_on(text, start, end);
    let word = past_white(text, first + 4, end);
    lemma_white_moves_on(text, first + 4, end);
    lemma_address_moves_on(text, word, end);
    match address_in_line(text, start, end) {
        Some((from, to)) => {
            assert(text.subrange(from, to) =~= rest.subrange(from - skipped, to - skipped));
        },
        None => {
            if end < text.len() {
                lemma_shift(text, skipped, end + 1);
            }
        },
    }
}

proof fn lemma_line_shift(text: Seq<char>, skipped: int, from: int)
    requires
        0 <= skipped <= from <= text.len(),
    ensures
        line_end(text, from) == line_end(text.skip(skipped), from - skipped) + skipped,
        from <= line_end(text, from) <= text.len(),
    decreases text.len() - from,
{
    if from < text.len() && text[from] != '\n' {
        lemma_line_shift(text, skipped, from + 1);
    }
}

proof fn lemma_white_shift(text: Seq<char>, skipped: int, from: int, end: int)
    requires
        0 <= skipped <= from,
        end <= text.len(),
    ensures
        past_white(text, from, end) == past_white(text.skip(skipped), from - skipped, end - skipped)
            + skipped,
    decreases end - from,
{
    if from < end && is_white(text[from]) {
        lemma_white_shift(text, skipped, from + 1, end);
    }
}

proof fn lemma_address_shift(text: Seq<char>, skipped: int, from: int, end: int)
    requires
        0 <= skipped <= from,
        end <= text.len(),
    ensures
        past_address(text, from, end) == past_address(
            text.skip(skipped),
            from - skipped,
            end - skipped,
        ) + skipped,
    decreases end - from,
{
    if from < end && !is_white(text[from]) && text[from] != '/' {
        lemma_address_shift(text, skipped, from + 1, end);
    }
}

proof fn lemma_white_moves_on(text: Seq<char>, from: int, end: int)
    ensures
        from <= past_white(text, from, end),
        from <= end ==> past_white(text, from, end) <= end,
    decreases end - from,
{
    if from < end && is_white(text[from]) {
        lemma_white_moves_on(text, from + 1, end);
    }
}

proof fn lemma_address_moves_on(text: Seq<char>, from: int, end: int)
    ensures
        from <= past_address(text, from, end),
        from <= end ==> past_address(text, from, end) <= end,
    decreases end - from,
{
    if from < end && !is_white(text[from]) && text[from] != '/' {
        lemma_address_moves_on(text, from + 1, end);
    }
}

/// A line that starts with another word than `inet`, or with no word, gives no address: what comes
/// of the text is what comes of the lines behind it.
pub proof fn lemma_other_lines_are_passed_over(
    indent: Seq<char>,
    line: Seq<char>,
    rest: Seq<char>,
)
    requires
        blank(indent),
        one_line(line),
        line.len() > 0 ==> !is_white(line[0]),
        line.take(5) != seq!['i', 'n', 'e', 't', ' '] || line.len() < 5,
    ensures
        address_from(indent + (line + (seq!['\n'] + rest)), 0) == address_from(rest, 0),
        address_from(indent + line, 0) is None,
{
    let text = indent + (line + (seq!['\n'] + rest));
    let alone = indent + line;
    let a1 = indent.len() as int;
    let end = a1 + line.len();
    assert forall|i: int| 0 <= i < end implies #[trigger] text[i] == alone[i] && alone[i] == (if i
        < a1 {
        indent[i]
    } else {
        line[i - a1]
    }) by {}
    assert(text[end] == '\n');
    lemma_line_end(text, 0, end);
    lemma_line_end(alone, 0, end);
    lemma_past_white(text, 0, a1, end);
    lemma_past_white(alone, 0, a1, end);
    assert(!says_inet(text, a1, end)) by {
        if says_inet(text, a1, end) {
            assert(line.take(5) =~= seq!['i', 'n', 'e', 't', ' ']);
        }
    }
    assert(!says_inet(alone, a1, end)) by {
        if says_inet(alone, a1, end) {
            assert(line.take(5) =~= seq!['i', 'n', 'e', 't', ' ']);
        }
    }
    lemma_shift(text, end + 1, end + 1);
    assert(text.skip(end + 1) =~= rest);
}

/// Spaces, tabs and the ends of lines are white space; no letter, digit or sign is.
pub proof fn lemma_white_space()
    ensures
        is_white(' ') && is_white('\t') && is_white('\r') && is_white('\n'),
        forall|c: char| '!' <= c <= '~' ==> !#[trigger] is_white(c),
{
}

} // verus!
