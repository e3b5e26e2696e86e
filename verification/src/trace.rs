//! The text of a schedule: the lines that a log is written in, and the
//! reading of such lines back into a claimed schedule and its final stocks.

use crate::model::names_view;
use crate::replay::{trace_view, Execution, Firing};
use crate::stocks::Stocks;
use crate::text::{
    chars_of, drop_blank, format_decimal, is_digit, lemma_blank_bounds, numeral, owned_range,
    parse_unsigned, skip_blank, string_of, trim_range, trimmed, unsigned_value, whitespace,
};
use vstd::prelude::*;

verus! {

/// The line that opens the final stocks.
pub open spec fn marker() -> Seq<char> {
    seq!['F', 'i', 'n', 'a', 'l', ' ', 's', 't', 'o', 'c', 'k', 's', ':']
}

/// The words before the time at which a schedule ends.
pub open spec fn finish_words() -> Seq<char> {
    seq!['F', 'i', 'n', 'i', 's', 'h', 'e', 'd', ' ', 'a', 't', ' ', 't', 'i', 'm', 'e', ' ']
}

/// The piece of `s` from `from` up to `to` begins with the marker.
pub open spec fn begins_with_marker(s: Seq<char>, from: int, to: int) -> bool {
    to - from >= marker().len() && s.subrange(from, from + marker().len()) == marker()
}

/// The number of colons of `s` from `from` up to `to`.
pub open spec fn colons(s: Seq<char>, from: int, to: int) -> nat
    decreases to - from,
{
    if from >= to {
        0
    } else {
        colons(s, from, to - 1) + if s[to - 1] == ':' {
            1nat
        } else {
            0nat
        }
    }
}

/// The position of the first colon of `s` from `from` on, before `to`; `to`
/// if there is none.
pub open spec fn first_colon(s: Seq<char>, from: int, to: int) -> int
    decreases to - from,
{
    if from < to && s[from] != ':' {
        first_colon(s, from + 1, to)
    } else {
        from
    }
}

/// The number that a piece of text spells, 0 if it spells none.
pub open spec fn value_or_zero(s: Seq<char>) -> nat {
    match unsigned_value(s) {
        Some(n) => n as nat,
        None => 0,
    }
}

/// What has been read of a result: the claimed runs, the claimed final
/// stocks, and whether the marker has been passed.
pub struct ResultView {
    pub executions: Seq<Firing>,
    pub stocks: Map<Seq<char>, nat>,
    pub marked: bool,
}

/// What has been read after one more line. A line that begins with the
/// marker, blanks aside, opens the final stocks. Any other line counts only
/// if it holds exactly one colon: before the marker it claims a run, the time
/// before the colon and the process behind it; behind the marker it claims a
/// stock, the name before the colon and the quantity behind it. A time or a
/// quantity that spells no number counts as 0, and a stock claimed twice has
/// the quantity claimed last.
pub open spec fn absorb(state: ResultView, line: Seq<char>) -> ResultView {
    let a = skip_blank(line, 0, line.len() as int);
    let b = drop_blank(line, a, line.len() as int);
    let c = first_colon(line, a, b);
    let left = trimmed(line, a, c);
    let right = trimmed(line, c + 1, b);
    if begins_with_marker(line, a, b) {
        ResultView { executions: state.executions, stocks: state.stocks, marked: true }
    } else if colons(line, a, b) != 1 {
        state
    } else if state.marked {
        ResultView {
            executions: state.executions,
            stocks: state.stocks.insert(left, value_or_zero(right)),
            marked: true,
        }
    } else {
        ResultView {
            executions: state.executions.push(Firing { time: value_or_zero(left), name: right }),
            stocks: state.stocks,
            marked: false,
        }
    }
}

/// What the lines of a result say.
pub open spec fn parsed(lines: Seq<Seq<char>>) -> ResultView
    decreases lines.len(),
{
    if lines.len() == 0 {
        ResultView { executions: Seq::empty(), stocks: Map::empty(), marked: false }
    } else {
        absorb(parsed(lines.drop_last()), lines.last())
    }
}

/// Whether the piece from `from` up to `to` begins with the marker.
pub fn has_marker(chars: &Vec<char>, from: usize, to: usize) -> (b: bool)
    requires
        from <= to <= chars@.len(),
    ensures
        b == begins_with_marker(chars@, from as int, to as int),
{
    let text: [char; 13] = ['F', 'i', 'n', 'a', 'l', ' ', 's', 't', 'o', 'c', 'k', 's', ':'];
    assert(text@ =~= marker());
    if to - from < 13 {
        return false;
    }
    let mut i: usize = 0;
    while i < 13
        invariant
            i <= 13,
            from + 13 <= to <= chars@.len(),
            text@ == marker(),
            forall|j: int| 0 <= j < i ==> chars@[from + j] == marker()[j],
        decreases 13 - i,
    {
        if chars[from + i] != text[i] {
            assert(chars@.subrange(from as int, from + 13)[i as int] != marker()[i as int]);
            return false;
        }
        i += 1;
    }
    assert(chars@.subrange(from as int, from + 13) =~= marker());
    true
}

/// The number of colons from `from` up to `to`, and the position of the first.
pub fn find_colon(chars: &Vec<char>, from: usize, to: usize) -> (r: (usize, usize))
    requires
        from <= to <= chars@.len(),
    ensures
        r.0 == colons(chars@, from as int, to as int),
        r.1 == first_colon(chars@, from as int, to as int),
        from <= r.1 <= to,
        r.0 > 0 ==> r.1 < to,
{
    let mut count: usize = 0;
    let mut first: usize = to;
    let mut i: usize = from;
    while i < to
        invariant
            from <= i <= to <= chars@.len(),
            count == colons(chars@, from as int, i as int),
            count <= i - from,
            count == 0 ==> first == to && first_colon(chars@, from as int, to as int)
                == first_colon(chars@, i as int, to as int),
            count > 0 ==> from <= first < i && first == first_colon(
                chars@,
                from as int,
                to as int,
            ),
        decreases to - i,
    {
        if chars[i] == ':' {
            if count == 0 {
                first = i;
            }
            count += 1;
        }
        i += 1;
    }
    (count, first)
}

/// Reads the lines of a result: the claimed runs before the marker, and the
/// claimed final stocks behind it.
pub fn parse_result_file(lines: &Vec<String>) -> (r: (Vec<Execution>, Stocks))
    ensures
        trace_view(r.0@) == parsed(names_view(lines@)).executions,
        r.1@ == parsed(names_view(lines@)).stocks,
{
    let ghost texts = names_view(lines@);
    let mut executions: Vec<Execution> = Vec::new();
    let mut stocks = Stocks::new();
    let mut marked = false;
    let mut i: usize = 0;
    assert(trace_view(executions@) =~= parsed(texts.take(0)).executions);
    while i < lines.len()
        invariant
            i <= lines@.len(),
            texts == names_view(lines@),
            trace_view(executions@) == parsed(texts.take(i as int)).executions,
            stocks@ == parsed(texts.take(i as int)).stocks,
            marked == parsed(texts.take(i as int)).marked,
        decreases lines@.len() - i,
    {
        let chars = chars_of(&lines[i]);
        let ghost line = texts[i as int];
        let ghost before = parsed(texts.take(i as int));
        let ghost held = trace_view(executions@);
        proof {
            assert(texts.take(i + 1).drop_last() =~= texts.take(i as int));
            assert(texts.take(i + 1).last() == line);
            assert(chars@ == line);
            lemma_blank_bounds(line, 0, line.len() as int);
        }
        let (a, b) = trim_range(&chars, 0, chars.len());
        if has_marker(&chars, a, b) {
            marked = true;
        } else {
            let (count, c) = find_colon(&chars, a, b);
            if count == 1 {
                let (la, lb) = trim_range(&chars, a, c);
                let (ra, rb) = trim_range(&chars, c + 1, b);
                if marked {
                    let amount = match parse_unsigned(&chars, ra, rb) {
                        Some(n) => n,
                        None => 0,
                    };
                    stocks.set(owned_range(&lines[i], la, lb), amount);
                } else {
                    let time = match parse_unsigned(&chars, la, lb) {
                        Some(n) => n,
                        None => 0,
                    };
                    executions.push(Execution { time, process_name: owned_range(&lines[i], ra, rb) });
                    assert(trace_view(executions@) =~= held.push(
                        Firing { time: time as nat, name: trimmed(line, c + 1, b as int) },
                    ));
                }
            }
        }
        i += 1;
    }
    proof {
        assert(texts.take(lines@.len() as int) =~= texts);
    }
    (executions, stocks)
}

/// The line of one run: the start time, a colon, the name of the process.
pub fn format_firing(time: u64, process: &String) -> (line: String)
    ensures
        line@ == numeral(time as nat) + seq![':'] + process@,
{
    let mut chars = format_decimal(time);
    chars.push(':');
    let mut name = chars_of(process);
    chars.append(&mut name);
    let line = string_of(&chars);
    assert(line@ =~= numeral(time as nat) + seq![':'] + process@);
    line
}

/// The line of one stock: the name, a colon, the quantity.
pub fn format_stock(name: &String, amount: u64) -> (line: String)
    ensures
        line@ == name@ + seq![':'] + numeral(amount as nat),
{
    let mut chars = chars_of(name);
    chars.push(':');
    let mut digits = format_decimal(amount);
    chars.append(&mut digits);
    let line = string_of(&chars);
    assert(line@ =~= name@ + seq![':'] + numeral(amount as nat));
    line
}

/// The line that opens the final stocks.
pub fn marker_line() -> (line: String)
    ensures
        line@ == marker(),
{
    let text: [char; 13] = ['F', 'i', 'n', 'a', 'l', ' ', 's', 't', 'o', 'c', 'k', 's', ':'];
    let mut chars: Vec<char> = Vec::new();
    let mut i: usize = 0;
    while i < 13
        invariant
            i <= 13,
            chars@ == text@.take(i as int),
        decreases 13 - i,
    {
        chars.push(text[i]);
        assert(chars@ =~= text@.take(i + 1));
        i += 1;
    }
    assert(text@.take(13) =~= marker());
    string_of(&chars)
}

/// The line that tells the time at which the schedule ends.
pub fn format_finish(finish_time: u64) -> (line: String)
    ensures
        line@ == finish_words() + numeral(finish_time as nat),
{
    let text: [char; 17] = [
        'F',
        'i',
        'n',
        'i',
        's',
        'h',
        'e',
        'd',
        ' ',
        'a',
        't',
        ' ',
        't',
        'i',
        'm',
        'e',
        ' ',
    ];
    let mut chars: Vec<char> = Vec::new();
    let mut i: usize = 0;
    while i < 17
        invariant
            i <= 17,
            chars@ == text@.take(i as int),
        decreases 17 - i,
    {
        chars.push(text[i]);
        assert(chars@ =~= text@.take(i + 1));
        i += 1;
    }
    assert(text@.take(17) =~= finish_words());
    let mut digits = format_decimal(finish_time);
    chars.append(&mut digits);
    let line = string_of(&chars);
    assert(line@ =~= finish_words() + numeral(finish_time as nat));
    line
}

/// Neither the colon, nor the letter that the marker begins with, nor any
/// decimal digit counts as white space.
pub open spec fn marks_are_not_blank() -> bool {
    !whitespace(':') && !whitespace('F') && forall|c: char|
        is_digit(c) ==> !#[trigger] whitespace(c)
}

/// Whether neither the colon, nor the letter that the marker begins with, nor
/// any decimal digit counts as white space.
pub fn marks_are_plain() -> (b: bool)
    ensures
        b == marks_are_not_blank(),
{
    if crate::text::is_whitespace(':') || crate::text::is_whitespace('F') {
        return false;
    }
    let digits: [char; 10] = ['0', '1', '2', '3', '4', '5', '6', '7', '8', '9'];
    let mut i: usize = 0;
    while i < 10
        invariant
            i <= 10,
            digits@ == seq!['0', '1', '2', '3', '4', '5', '6', '7', '8', '9'],
            forall|j: int| 0 <= j < i ==> !whitespace(#[trigger] digits@[j]),
        decreases 10 - i,
    {
        if crate::text::is_whitespace(digits[i]) {
            assert(is_digit(digits@[i as int]));
            return false;
        }
        i += 1;
    }
    proof {
        assert forall|c: char| is_digit(c) implies !#[trigger] whitespace(c) by {
            let k = c as u32 - 48;
            let d = digits@[k as int];
            assert(d as u32 == c as u32);
            vstd::utf8::char_u32_cast(c, c as u32);
            vstd::utf8::char_u32_cast(d, d as u32);
            assert(d == c);
        }
    }
    true
}

/// A name that can be written into a line and read back: it holds no colon,
/// and neither begins nor ends with white space.
pub open spec fn writable(name: Seq<char>) -> bool {
    &&& forall|i: int| 0 <= i < name.len() ==> #[trigger] name[i] != ':'
    &&& name.len() > 0 ==> !whitespace(name[0]) && !whitespace(name.last())
}

/// A piece without colons counts none.
pub proof fn lemma_no_colons(s: Seq<char>, from: int, to: int)
    requires
        0 <= from <= to <= s.len(),
        forall|i: int| from <= i < to ==> #[trigger] s[i] != ':',
    ensures
        colons(s, from, to) == 0,
        first_colon(s, from, to) == to,
    decreases to - from,
{
    if from < to {
        lemma_no_colons(s, from, to - 1);
        lemma_no_colons(s, from + 1, to);
    }
}

/// The colons of a piece are those before a place and those from it on.
pub proof fn lemma_colons_split(s: Seq<char>, from: int, mid: int, to: int)
    requires
        0 <= from <= mid <= to <= s.len(),
    ensures
        colons(s, from, to) == colons(s, from, mid) + colons(s, mid, to),
    decreases to - mid,
{
    if mid < to {
        lemma_colons_split(s, from, mid, to - 1);
    }
}

/// The first colon behind a piece without colons is found from its start.
pub proof fn lemma_first_colon_behind(s: Seq<char>, from: int, at: int, to: int)
    requires
        0 <= from <= at < to <= s.len(),
        forall|i: int| from <= i < at ==> #[trigger] s[i] != ':',
        s[at] == ':',
    ensures
        first_colon(s, from, to) == at,
    decreases at - from,
{
    if from < at {
        lemma_first_colon_behind(s, from + 1, at, to);
    }
}

/// A piece that neither begins nor ends with white space is its own trimming.
pub proof fn lemma_trimmed_whole(s: Seq<char>, from: int, to: int)
    requires
        0 <= from <= to <= s.len(),
        from < to ==> !whitespace(s[from]) && !whitespace(s[to - 1]),
    ensures
        trimmed(s, from, to) == s.subrange(from, to),
{
}

/// A line of two pieces around one colon, neither of which begins or ends
/// with white space or holds a colon, is read as those two pieces.
pub proof fn lemma_line_parts(left: Seq<char>, right: Seq<char>)
    requires
        !whitespace(':'),
        writable(left),
        writable(right),
    ensures
        ({
            let line = left + seq![':'] + right;
            let a = skip_blank(line, 0, line.len() as int);
            let b = drop_blank(line, a, line.len() as int);
            let c = first_colon(line, a, b);
            &&& a == 0
            &&& b == line.len()
            &&& colons(line, a, b) == 1
            &&& c == left.len()
            &&& trimmed(line, a, c) == left
            &&& trimmed(line, c + 1, b) == right
        }),
{
    let line = left + seq![':'] + right;
    let n = line.len() as int;
    let at = left.len() as int;
    assert(line[at] == ':');
    assert forall|i: int| 0 <= i < at implies #[trigger] line[i] != ':' by {
        assert(line[i] == left[i]);
    }
    assert forall|i: int| at + 1 <= i < n implies #[trigger] line[i] != ':' by {
        assert(line[i] == right[i - at - 1]);
    }
    if left.len() > 0 {
        assert(line[0] == left[0]);
        assert(line[at - 1] == left.last());
    }
    if right.len() > 0 {
        assert(line[at + 1] == right[0]);
        assert(line[n - 1] == right.last());
    }
    assert(skip_blank(line, 0, n) == 0);
    assert(drop_blank(line, 0, n) == n);
    lemma_no_colons(line, 0, at);
    lemma_no_colons(line, at + 1, n);
    lemma_colons_split(line, 0, at + 1, n);
    assert(colons(line, 0, at + 1) == colons(line, 0, at) + 1);
    lemma_first_colon_behind(line, 0, at, n);
    lemma_trimmed_whole(line, 0, at);
    lemma_trimmed_whole(line, at + 1, n);
    assert(line.subrange(0, at) =~= left);
    assert(line.subrange(at + 1, n) =~= right);
}

/// The digits of a number are a piece that can be written and read back.
pub proof fn lemma_numeral_writable(n: nat)
    requires
        marks_are_not_blank(),
    ensures
        writable(numeral(n)),
        numeral(n).len() > 0,
        is_digit(numeral(n)[0]),
{
    crate::text::lemma_numeral_round_trip(n);
    let text = numeral(n);
    assert(text.len() > 0) by {
        reveal_with_fuel(crate::text::digit_count, 2);
    }
    assert(is_digit(text[0]) && is_digit(text.last()));
    assert forall|i: int| 0 <= i < text.len() implies #[trigger] text[i] != ':' by {
        assert(is_digit(text[i]));
    }
}

/// The line of a run is read back as that run: before the marker, a line
/// written as start time, colon and process name claims one run of that
/// process at that time.
pub proof fn lemma_firing_line_read_back(state: ResultView, time: nat, name: Seq<char>)
    requires
        marks_are_not_blank(),
        !state.marked,
        time <= u64::MAX,
        writable(name),
    ensures
        absorb(state, numeral(time) + seq![':'] + name) == (ResultView {
            executions: state.executions.push(Firing { time, name }),
            stocks: state.stocks,
            marked: false,
        }),
{
    let line = numeral(time) + seq![':'] + name;
    lemma_numeral_writable(time);
    lemma_line_parts(numeral(time), name);
    crate::text::lemma_numeral_round_trip(time);
    assert(!begins_with_marker(line, 0, line.len() as int)) by {
        if line.len() >= marker().len() {
            assert(line.subrange(0, marker().len() as int)[0] == numeral(time)[0]);
            assert(marker()[0] == 'F');
        }
    }
}

/// The line of a stock is read back as that stock: behind the marker, a line
/// written as name, colon and quantity claims that quantity of that stock,
/// unless the name itself begins with the marker.
pub proof fn lemma_stock_line_read_back(state: ResultView, name: Seq<char>, amount: nat)
    requires
        marks_are_not_blank(),
        state.marked,
        amount <= u64::MAX,
        writable(name),
        !begins_with_marker(
            name + seq![':'] + numeral(amount),
            0,
            (name + seq![':'] + numeral(amount)).len() as int,
        ),
    ensures
        absorb(state, name + seq![':'] + numeral(amount)) == (ResultView {
            executions: state.executions,
            stocks: state.stocks.insert(name, amount),
            marked: true,
        }),
{
    lemma_numeral_writable(amount);
    lemma_line_parts(name, numeral(amount));
    crate::text::lemma_numeral_round_trip(amount);
}

/// What has been read after more lines.
pub open spec fn read_on(state: ResultView, lines: Seq<Seq<char>>) -> ResultView
    decreases lines.len(),
{
    if lines.len() == 0 {
        state
    } else {
        absorb(read_on(state, lines.drop_last()), lines.last())
    }
}

/// Reading lines is reading on from nothing.
pub proof fn lemma_parsed_reads_on(lines: Seq<Seq<char>>)
    ensures
        parsed(lines) == read_on(
            ResultView { executions: Seq::empty(), stocks: Map::empty(), marked: false },
            lines,
        ),
    decreases lines.len(),
{
    if lines.len() > 0 {
        lemma_parsed_reads_on(lines.drop_last());
    }
}

/// Reading two lists of lines in a row is reading their joining.
pub proof fn lemma_read_on_joined(state: ResultView, first: Seq<Seq<char>>, second: Seq<Seq<char>>)
    ensures
        read_on(state, first + second) == read_on(read_on(state, first), second),
    decreases second.len(),
{
    if second.len() == 0 {
        assert(first + second =~= first);
    } else {
        assert((first + second).drop_last() =~= first + second.drop_last());
        assert((first + second).last() == second.last());
        lemma_read_on_joined(state, first, second.drop_last());
    }
}

/// A line without a colon claims nothing.
pub proof fn lemma_plain_line_skipped(state: ResultView, line: Seq<char>)
    requires
        forall|i: int| 0 <= i < line.len() ==> #[trigger] line[i] != ':',
    ensures
        absorb(state, line) == state,
{
    let n = line.len() as int;
    lemma_blank_bounds(line, 0, n);
    let a = skip_blank(line, 0, n);
    lemma_blank_bounds(line, a, n);
    let b = drop_blank(line, a, n);
    lemma_no_colons(line, a, b);
    if begins_with_marker(line, a, b) {
        assert(line.subrange(a, a + marker().len())[12] == marker()[12]);
        assert(line[a + 12] == ':');
    }
}

/// The lines of the runs of a log: for each record as many lines as its
/// count says, each the start time, a colon and the process name.
pub open spec fn firing_lines(log: Seq<(Seq<char>, nat, nat)>) -> Seq<Seq<char>>
    decreases log.len(),
{
    if log.len() == 0 {
        Seq::empty()
    } else {
        firing_lines(log.drop_last()) + Seq::new(
            log.last().1,
            |i: int| numeral(log.last().2) + seq![':'] + log.last().0,
        )
    }
}

/// The lines of the stocks: for each the name, a colon and the quantity.
pub open spec fn stock_lines(keys: Seq<Seq<char>>, values: Seq<u64>) -> Seq<Seq<char>> {
    Seq::new(keys.len(), |i: int| keys[i] + seq![':'] + numeral(values[i] as nat))
}

/// The lines of a written result: the runs of the log, an empty line, the
/// time at which the schedule ends, an empty line, the marker, the stocks.
pub open spec fn result_lines(
    log: Seq<(Seq<char>, nat, nat)>,
    finish_time: nat,
    keys: Seq<Seq<char>>,
    values: Seq<u64>,
) -> Seq<Seq<char>> {
    firing_lines(log) + seq![
        Seq::<char>::empty(),
        finish_words() + numeral(finish_time),
        Seq::<char>::empty(),
        marker(),
    ] + stock_lines(keys, values)
}

/// The lines of `n` runs of one firing are read back as those runs.
pub proof fn lemma_repeated_line_read_back(state: ResultView, time: nat, name: Seq<char>, n: nat)
    requires
        marks_are_not_blank(),
        !state.marked,
        time <= u64::MAX,
        writable(name),
    ensures
        read_on(state, Seq::new(n, |i: int| numeral(time) + seq![':'] + name)) == (ResultView {
            executions: state.executions + crate::run::repeat(Firing { time, name }, n),
            stocks: state.stocks,
            marked: false,
        }),
    decreases n,
{
    let line = numeral(time) + seq![':'] + name;
    let lines = Seq::new(n, |i: int| line);
    let firing = Firing { time, name };
    if n == 0 {
        assert(state.executions + crate::run::repeat(firing, 0) =~= state.executions);
    } else {
        let less = (n - 1) as nat;
        assert(lines.drop_last() =~= Seq::new(less, |i: int| line));
        lemma_repeated_line_read_back(state, time, name, less);
        lemma_firing_line_read_back(read_on(state, lines.drop_last()), time, name);
        assert((state.executions + crate::run::repeat(firing, less)).push(firing)
            =~= state.executions + crate::run::repeat(firing, n));
    }
}

/// The lines of a log are read back as the schedule that the log stands for.
pub proof fn lemma_firing_lines_read_back(state: ResultView, log: Seq<(Seq<char>, nat, nat)>)
    requires
        marks_are_not_blank(),
        !state.marked,
        forall|i: int| 0 <= i < log.len() ==> writable((#[trigger] log[i]).0) && log[i].2 <= u64::MAX,
    ensures
        read_on(state, firing_lines(log)) == (ResultView {
            executions: state.executions + crate::run::expand(log),
            stocks: state.stocks,
            marked: false,
        }),
    decreases log.len(),
{
    if log.len() == 0 {
        assert(state.executions + crate::run::expand(log) =~= state.executions);
    } else {
        let rest = log.drop_last();
        let last = log.last();
        assert forall|i: int| 0 <= i < rest.len() implies writable((#[trigger] rest[i]).0)
            && rest[i].2 <= u64::MAX by {
            assert(rest[i] == log[i]);
        }
        lemma_firing_lines_read_back(state, rest);
        let lines = Seq::new(last.1, |i: int| numeral(last.2) + seq![':'] + last.0);
        lemma_read_on_joined(state, firing_lines(rest), lines);
        assert(writable(log[log.len() - 1].0));
        lemma_repeated_line_read_back(read_on(state, firing_lines(rest)), last.2, last.0, last.1);
        assert((state.executions + crate::run::expand(rest)) + crate::run::repeat(
            Firing { time: last.2, name: last.0 },
            last.1,
        ) =~= state.executions + crate::run::expand(log));
    }
}

/// The stocks after the first `upto` of the names have been set to the
/// quantities beside them.
pub open spec fn set_all(
    stocks: Map<Seq<char>, nat>,
    keys: Seq<Seq<char>>,
    values: Seq<u64>,
    upto: int,
) -> Map<Seq<char>, nat>
    decreases upto,
{
    if upto <= 0 {
        stocks
    } else {
        set_all(stocks, keys, values, upto - 1).insert(keys[upto - 1], values[upto - 1] as nat)
    }
}

/// The lines of the stocks are read back as those stocks.
pub proof fn lemma_stock_lines_read_back(
    state: ResultView,
    keys: Seq<Seq<char>>,
    values: Seq<u64>,
    upto: int,
)
    requires
        marks_are_not_blank(),
        state.marked,
        keys.len() == values.len(),
        0 <= upto <= keys.len(),
        forall|i: int|
            0 <= i < keys.len() ==> writable(#[trigger] keys[i]) && !begins_with_marker(
                keys[i] + seq![':'] + numeral(values[i] as nat),
                0,
                (keys[i] + seq![':'] + numeral(values[i] as nat)).len() as int,
            ),
    ensures
        read_on(state, stock_lines(keys, values).take(upto)) == (ResultView {
            executions: state.executions,
            stocks: set_all(state.stocks, keys, values, upto),
            marked: true,
        }),
    decreases upto,
{
    let lines = stock_lines(keys, values);
    if upto > 0 {
        assert(lines.take(upto).drop_last() =~= lines.take(upto - 1));
        assert(lines.take(upto).last() == keys[upto - 1] + seq![':'] + numeral(
            values[upto - 1] as nat,
        ));
        lemma_stock_lines_read_back(state, keys, values, upto - 1);
        assert(writable(keys[upto - 1]));
        lemma_stock_line_read_back(
            read_on(state, lines.take(upto - 1)),
            keys[upto - 1],
            values[upto - 1] as nat,
        );
    }
}

/// Names that do not repeat, each set to the quantity beside it, make the
/// snapshot that holds exactly those names with those quantities.
pub proof fn lemma_set_all_is_snapshot(keys: Seq<Seq<char>>, values: Seq<u64>, upto: int)
    requires
        keys.len() == values.len(),
        keys.no_duplicates(),
        0 <= upto <= keys.len(),
    ensures
        forall|k: Seq<char>|
            set_all(Map::empty(), keys, values, upto).dom().contains(k) <==> keys.take(
                upto,
            ).contains(k),
        forall|i: int|
            0 <= i < upto ==> set_all(Map::empty(), keys, values, upto)[#[trigger] keys[i]]
                == values[i] as nat,
    decreases upto,
{
    if upto > 0 {
        lemma_set_all_is_snapshot(keys, values, upto - 1);
        assert forall|k: Seq<char>|
            set_all(Map::empty(), keys, values, upto).dom().contains(k) <==> keys.take(
                upto,
            ).contains(k) by {
            crate::ledger::lemma_take_contains(keys, upto - 1, k);
        }
    } else {
        assert(keys.take(0).len() == 0);
    }
}

/// What is written is read back: the lines of a written result, read as a
/// result, claim the schedule that the log stands for and the stocks that
/// were written. This holds where the names hold no colon and neither begin
/// nor end with white space, no stock line begins with the marker, and the
/// colon, the letter F and the digits are no white space.
pub proof fn lemma_written_result_read_back(
    log: Seq<(Seq<char>, nat, nat)>,
    finish_time: nat,
    stocks: &Stocks,
)
    requires
        marks_are_not_blank(),
        stocks.wf(),
        forall|i: int| 0 <= i < log.len() ==> writable((#[trigger] log[i]).0) && log[i].2 <= u64::MAX,
        forall|i: int|
            0 <= i < stocks.keys().len() ==> writable(#[trigger] stocks.keys()[i])
                && !begins_with_marker(
                stocks.keys()[i] + seq![':'] + numeral(stocks.values()[i] as nat),
                0,
                (stocks.keys()[i] + seq![':'] + numeral(stocks.values()[i] as nat)).len() as int,
            ),
    ensures
        parsed(result_lines(log, finish_time, stocks.keys(), stocks.values())).executions
            == crate::run::expand(log),
        parsed(result_lines(log, finish_time, stocks.keys(), stocks.values())).stocks == stocks@,
{
    let keys = stocks.keys();
    let values = stocks.values();
    stocks.lemma_keys();
    let start = ResultView { executions: Seq::empty(), stocks: Map::empty(), marked: false };
    let middle = seq![
        Seq::<char>::empty(),
        finish_words() + numeral(finish_time),
        Seq::<char>::empty(),
        marker(),
    ];
    let whole = result_lines(log, finish_time, keys, values);
    lemma_parsed_reads_on(whole);
    lemma_read_on_joined(start, firing_lines(log) + middle, stock_lines(keys, values));
    lemma_read_on_joined(start, firing_lines(log), middle);
    lemma_firing_lines_read_back(start, log);
    let after_log = read_on(start, firing_lines(log));
    assert(after_log.executions =~= crate::run::expand(log));
    let finish = finish_words() + numeral(finish_time);
    assert forall|i: int| 0 <= i < finish.len() implies #[trigger] finish[i] != ':' by {
        lemma_numeral_writable(finish_time);
        if i >= finish_words().len() {
            assert(finish[i] == numeral(finish_time)[i - finish_words().len()]);
        } else {
            assert(finish[i] == finish_words()[i]);
        }
    }
    let after_middle = read_on(after_log, middle);
    assert(after_middle == (ResultView {
        executions: after_log.executions,
        stocks: after_log.stocks,
        marked: true,
    })) by {
        let one = middle.drop_last();
        let two = one.drop_last();
        let three = two.drop_last();
        assert(three.drop_last() =~= Seq::<Seq<char>>::empty());
        assert(read_on(after_log, three.drop_last()) == after_log);
        lemma_plain_line_skipped(after_log, Seq::<char>::empty());
        assert(three.last() == Seq::<char>::empty());
        assert(read_on(after_log, three) == after_log);
        assert(two.last() == finish);
        lemma_plain_line_skipped(after_log, finish);
        assert(read_on(after_log, two) == after_log);
        assert(one.last() == Seq::<char>::empty());
        assert(read_on(after_log, one) == after_log);
        assert(middle.last() == marker());
        let m = marker();
        assert(m[0] == 'F' && m[12] == ':');
        assert(skip_blank(m, 0, 13) == 0);
        assert(drop_blank(m, 0, 13) == 13);
        assert(m.subrange(0, 13) =~= m);
        assert(begins_with_marker(m, 0, 13));
    }
    lemma_stock_lines_read_back(after_middle, keys, values, keys.len() as int);
    assert(stock_lines(keys, values).take(keys.len() as int) =~= stock_lines(keys, values));
    lemma_set_all_is_snapshot(keys, values, keys.len() as int);
    assert(keys.take(keys.len() as int) =~= keys);
    let read = set_all(Map::<Seq<char>, nat>::empty(), keys, values, keys.len() as int);
    assert forall|k: Seq<char>| read.dom().contains(k) == stocks@.dom().contains(k) by {
        assert(read.dom().contains(k) <==> keys.take(keys.len() as int).contains(k));
    }
    assert forall|k: Seq<char>| #[trigger] read.dom().contains(k) implies read[k] == stocks@[k] by {
        assert(keys.contains(k));
        let i = choose|i: int| 0 <= i < keys.len() && keys[i] == k;
        assert(read[keys[i]] == values[i] as nat);
        assert(stocks@[keys[i]] == values[i]);
    }
    assert(read =~= stocks@);
}

/// The written result of a run that follows its problem passes the replay
/// check: read back, its lines claim a schedule that the check accepts with
/// the stocks they claim. This holds where the names hold no colon and
/// neither begin nor end with white space, no stock line begins with the
/// marker, and the colon, the letter F and the digits are no white space.
pub proof fn lemma_written_run_is_accepted(
    run: crate::run::RunView,
    data: crate::model::DataView,
    finish_time: nat,
    stocks: &Stocks,
)
    requires
        crate::run::follows(run, data),
        marks_are_not_blank(),
        stocks.wf(),
        stocks@ == crate::ledger::settled(run.tick),
        forall|i: int|
            0 <= i < run.log.len() ==> writable((#[trigger] run.log[i]).0) && run.log[i].2
                <= u64::MAX,
        forall|i: int|
            0 <= i < stocks.keys().len() ==> writable(#[trigger] stocks.keys()[i])
                && !begins_with_marker(
                stocks.keys()[i] + seq![':'] + numeral(stocks.values()[i] as nat),
                0,
                (stocks.keys()[i] + seq![':'] + numeral(stocks.values()[i] as nat)).len() as int,
            ),
    ensures
        crate::replay::verdict(
            data,
            parsed(result_lines(run.log, finish_time, stocks.keys(), stocks.values())).executions,
            parsed(result_lines(run.log, finish_time, stocks.keys(), stocks.values())).stocks,
        ) == Ok::<(), crate::replay::Fault>(()),
{
    lemma_written_result_read_back(run.log, finish_time, stocks);
    crate::run::lemma_followed_run_is_accepted(run, data);
}

} // verus!
