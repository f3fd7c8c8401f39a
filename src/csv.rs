use vstd::prelude::*;

use crate::message::Results;

verus! {

/// Header line of the per-request log.
pub const CSV_HEADER: &'static str = "host,status_code,time_millis,body";

/// The character of a decimal digit.
pub open spec fn digit_char(d: int) -> char {
    if d == 0 {
        '0'
    } else if d == 1 {
        '1'
    } else if d == 2 {
        '2'
    } else if d == 3 {
        '3'
    } else if d == 4 {
        '4'
    } else if d == 5 {
        '5'
    } else if d == 6 {
        '6'
    } else if d == 7 {
        '7'
    } else if d == 8 {
        '8'
    } else {
        '9'
    }
}

/// Whether a character is an ASCII decimal digit.
pub open spec fn is_digit(c: char) -> bool {
    '0' <= c <= '9'
}

/// The value of a decimal digit character.
pub open spec fn digit_value(c: char) -> int {
    c as int - '0' as int
}

/// The decimal representation of a number, without leading zeros.
pub open spec fn decimal(n: nat) -> Seq<char>
    decreases n,
{
    if n < 10 {
        seq![digit_char(n as int)]
    } else {
        decimal(n / 10).push(digit_char((n % 10) as int))
    }
}

/// Whether every character is a decimal digit.
pub open spec fn all_digits(s: Seq<char>) -> bool {
    forall|i: int| 0 <= i < s.len() ==> is_digit(#[trigger] s[i])
}

/// The number that a sequence of decimal digits stands for.
pub open spec fn digits_value(s: Seq<char>) -> int
    decreases s.len(),
{
    if s.len() == 0 {
        0
    } else {
        digits_value(s.drop_last()) * 10 + digit_value(s.last())
    }
}

/// A numeric field: one or more decimal digits, and their value.
pub open spec fn digits_field(s: Seq<char>) -> Option<int> {
    if s.len() > 0 && all_digits(s) {
        Some(digits_value(s))
    } else {
        None
    }
}

/// Index of the first `c` in `s`, or the length of `s` when there is none.
pub open spec fn index_of(s: Seq<char>, c: char) -> int
    decreases s.len(),
{
    if s.len() == 0 {
        0
    } else if s[0] == c {
        0
    } else {
        1 + index_of(s.drop_first(), c)
    }
}

/// A completed request as a log line, without the host.
pub open spec fn csv_line(r: Results) -> Seq<char> {
    decimal(r.response_code as nat) + seq![','] + decimal(r.elapsed as nat) + seq![',', ' ']
        + r.body@
}

/// A full row of the log: the host, then the request.
pub open spec fn csv_row(host: Seq<char>, r: Results) -> Seq<char> {
    host + seq![','] + csv_line(r)
}

/// The rows of the log, each ended by a newline.
pub open spec fn csv_rows(host: Seq<char>, rs: Seq<Results>) -> Seq<char>
    decreases rs.len(),
{
    if rs.len() == 0 {
        Seq::empty()
    } else {
        csv_rows(host, rs.drop_last()) + csv_row(host, rs.last()) + seq!['\n']
    }
}

/// A row of the log as mathematical values.
pub ghost struct RowView {
    pub host: Seq<char>,
    pub response_code: int,
    pub elapsed: int,
    pub body: Seq<char>,
}

/// Reads one row: host, status code and elapsed time up to the first three
/// commas, then a space and the body, which may hold commas.
pub open spec fn parse_row(l: Seq<char>) -> Option<RowView> {
    let a = index_of(l, ',');
    let r1 = l.skip(a + 1);
    let b = index_of(r1, ',');
    let r2 = r1.skip(b + 1);
    let c = index_of(r2, ',');
    let r3 = r2.skip(c + 1);
    let code = digits_field(r1.take(b));
    let elapsed = digits_field(r2.take(c));
    if a < l.len() && b < r1.len() && c < r2.len() && r3.len() > 0 && r3[0] == ' '
        && code is Some && code->0 <= u16::MAX && elapsed is Some && elapsed->0 <= u128::MAX {
        Some(RowView { host: l.take(a), response_code: code->0, elapsed: elapsed->0, body: r3.skip(1) })
    } else {
        None
    }
}

/// One row of the log, read back.
#[derive(Debug, Clone)]
pub struct CsvRow {
    pub host: String,
    pub response_code: u16,
    pub elapsed: u128,
    pub body: String,
}

impl CsvRow {
    /// The row as mathematical values.
    pub open spec fn view(&self) -> RowView {
        RowView {
            host: self.host@,
            response_code: self.response_code as int,
            elapsed: self.elapsed as int,
            body: self.body@,
        }
    }
}

proof fn lemma_digit_char(d: int)
    requires
        0 <= d < 10,
    ensures
        is_digit(digit_char(d)),
        digit_value(digit_char(d)) == d,
{
}

/// A decimal representation is one or more digits worth the number.
pub proof fn lemma_decimal(n: nat)
    ensures
        decimal(n).len() >= 1,
        all_digits(decimal(n)),
        digits_value(decimal(n)) == n,
    decreases n,
{
    if n < 10 {
        lemma_digit_char(n as int);
        assert(seq![digit_char(n as int)].drop_last() =~= Seq::<char>::empty());
        assert(digits_value(Seq::<char>::empty()) == 0);
    } else {
        lemma_decimal(n / 10);
        lemma_digit_char((n % 10) as int);
        assert(decimal(n).drop_last() =~= decimal(n / 10));
        assert(decimal(n).last() == digit_char((n % 10) as int));
        assert(n == (n / 10) * 10 + n % 10);
    }
}

proof fn lemma_digits_value_nonnegative(s: Seq<char>)
    requires
        all_digits(s),
    ensures
        digits_value(s) >= 0,
    decreases s.len(),
{
    if s.len() > 0 {
        lemma_digits_value_nonnegative(s.drop_last());
    }
}

proof fn lemma_index_of(s: Seq<char>, c: char, k: int)
    requires
        0 <= k <= s.len(),
        forall|i: int| 0 <= i < k ==> s[i] != c,
        k == s.len() || s[k] == c,
    ensures
        index_of(s, c) == k,
    decreases k,
{
    if k > 0 {
        lemma_index_of(s.drop_first(), c, k - 1);
    }
}

proof fn lemma_field(pre: Seq<char>, rest: Seq<char>)
    requires
        forall|i: int| 0 <= i < pre.len() ==> pre[i] != ',',
    ensures
        index_of(pre + seq![','] + rest, ',') == pre.len(),
        (pre + seq![','] + rest).take(pre.len() as int) == pre,
        (pre + seq![','] + rest).skip(pre.len() as int + 1) == rest,
{
    let l = pre + seq![','] + rest;
    lemma_index_of(l, ',', pre.len() as int);
    assert(l.take(pre.len() as int) =~= pre);
    assert(l.skip(pre.len() as int + 1) =~= rest);
}

proof fn lemma_digits_have_no_comma(s: Seq<char>)
    requires
        all_digits(s),
    ensures
        forall|i: int| 0 <= i < s.len() ==> s[i] != ',',
{
    assert forall|i: int| 0 <= i < s.len() implies s[i] != ',' by {
        assert(is_digit(s[i]));
    }
}

/// A row written for a host without commas reads back as that host, status
/// code, elapsed time and body.
pub proof fn lemma_row_round_trip(host: Seq<char>, r: Results)
    requires
        forall|i: int| 0 <= i < host.len() ==> host[i] != ',',
    ensures
        parse_row(csv_row(host, r)) == Some(
            RowView {
                host: host,
                response_code: r.response_code as int,
                elapsed: r.elapsed as int,
                body: r.body@,
            },
        ),
{
    let code = decimal(r.response_code as nat);
    let el = decimal(r.elapsed as nat);
    lemma_decimal(r.response_code as nat);
    lemma_decimal(r.elapsed as nat);
    lemma_digits_have_no_comma(code);
    lemma_digits_have_no_comma(el);
    let r3 = seq![' '] + r.body@;
    let r2 = el + seq![','] + r3;
    let r1 = code + seq![','] + r2;
    assert(csv_row(host, r) =~= host + seq![','] + r1);
    lemma_field(host, r1);
    lemma_field(code, r2);
    lemma_field(el, r3);
    assert(r3.skip(1) =~= r.body@);
}

/// The characters of a string, in order.
pub fn chars_of(s: &str) -> (r: Vec<char>)
    ensures
        r@ == s@,
{
    let mut r: Vec<char> = Vec::new();
    for c in it: s.chars()
        invariant
            r@ == it.seq().take(it.index() as int),
    {
        r.push(c);
    }
    r
}

/// The one-character string of a decimal digit.
fn digit_str(d: u128) -> (r: &'static str)
    requires
        d < 10,
    ensures
        r@ == seq![digit_char(d as int)],
{
    proof {
        reveal_strlit("0");
        reveal_strlit("1");
        reveal_strlit("2");
        reveal_strlit("3");
        reveal_strlit("4");
        reveal_strlit("5");
        reveal_strlit("6");
        reveal_strlit("7");
        reveal_strlit("8");
        reveal_strlit("9");
    }
    let r = if d == 0 {
        "0"
    } else if d == 1 {
        "1"
    } else if d == 2 {
        "2"
    } else if d == 3 {
        "3"
    } else if d == 4 {
        "4"
    } else if d == 5 {
        "5"
    } else if d == 6 {
        "6"
    } else if d == 7 {
        "7"
    } else if d == 8 {
        "8"
    } else {
        "9"
    };
    assert(r@ =~= seq![digit_char(d as int)]);
    r
}

/// The decimal representation of `n`.
pub fn decimal_string(n: u128) -> (r: String)
    ensures
        r@ == decimal(n as nat),
    decreases n,
{
    if n < 10 {
        String::from_str(digit_str(n))
    } else {
        let mut s = decimal_string(n / 10);
        s.append(digit_str(n % 10));
        s
    }
}

impl Results {
    /// The request as a log line without the host:
    /// status code, elapsed milliseconds, then a space and the body.
    pub fn to_csv_line(&self) -> (r: String)
        ensures
            r@ == csv_line(*self),
    {
        proof {
            reveal_strlit(",");
            reveal_strlit(", ");
        }
        let mut s = decimal_string(self.response_code as u128);
        s.append(",");
        let elapsed = decimal_string(self.elapsed);
        s.append(elapsed.as_str());
        s.append(", ");
        s.append(self.body.as_str());
        assert(s@ =~= csv_line(*self));
        s
    }
}

/// One row of the log: the host, then the request's line.
pub fn log_row(host: &str, r: &Results) -> (s: String)
    ensures
        s@ == csv_row(host@, *r),
{
    proof {
        reveal_strlit(",");
    }
    let mut s = String::from_str(host);
    s.append(",");
    let line = r.to_csv_line();
    s.append(line.as_str());
    assert(s@ =~= csv_row(host@, *r));
    s
}

/// The whole log: the header line, then one row per completed request in
/// arrival order, each line ended by a newline.
pub fn csv_text(host: &str, results: &Vec<Results>) -> (s: String)
    ensures
        s@ == CSV_HEADER@ + seq!['\n'] + csv_rows(host@, results@),
{
    proof {
        reveal_strlit("\n");
        assert("\n"@ =~= seq!['\n']);
    }
    let mut s = String::from_str(CSV_HEADER);
    s.append("\n");
    let mut i: usize = 0;
    while i < results.len()
        invariant
            i <= results@.len(),
            s@ == CSV_HEADER@ + seq!['\n'] + csv_rows(host@, results@.take(i as int)),
        decreases results@.len() - i,
    {
        proof {
            reveal_strlit("\n");
            assert("\n"@ =~= seq!['\n']);
        }
        let ghost before = s@;
        let row = log_row(host, &results[i]);
        s.append(row.as_str());
        s.append("\n");
        proof {
            assert(s@ =~= before + csv_row(host@, results@[i as int]) + seq!['\n']);
            let next = results@.take(i + 1);
            assert(next.drop_last() =~= results@.take(i as int));
            assert(next.last() == results@[i as int]);
        }
        i = i + 1;
    }
    assert(results@.take(i as int) =~= results@);
    s
}

/// Index of the first `c` in `cs` at or after `from`; the length when there is none.
fn find_from(cs: &Vec<char>, from: usize, c: char) -> (r: usize)
    requires
        from <= cs@.len(),
    ensures
        r == from + index_of(cs@.skip(from as int), c),
        from <= r <= cs@.len(),
{
    let mut i = from;
    while i < cs.len() && cs[i] != c
        invariant
            from <= i <= cs@.len(),
            forall|k: int| from <= k < i ==> cs@[k] != c,
        decreases cs@.len() - i,
    {
        i = i + 1;
    }
    proof {
        lemma_index_of(cs@.skip(from as int), c, i - from);
    }
    i
}

/// The value of the digits `cs[from..to]`, if they are one or more digits
/// and the value fits.
fn parse_digits(cs: &Vec<char>, from: usize, to: usize) -> (r: Option<u128>)
    requires
        from <= to <= cs@.len(),
    ensures
        ({
            let f = digits_field(cs@.subrange(from as int, to as int));
            &&& (r is Some <==> f is Some && f->0 <= u128::MAX)
            &&& (r is Some ==> r->0 == f->0)
        }),
{
    if from == to {
        return None;
    }
    let ghost whole = cs@.subrange(from as int, to as int);
    let mut v: u128 = 0;
    let mut i = from;
    let mut fits = true;
    while i < to
        invariant
            from <= i <= to <= cs@.len(),
            whole == cs@.subrange(from as int, to as int),
            all_digits(cs@.subrange(from as int, i as int)),
            fits ==> v == digits_value(cs@.subrange(from as int, i as int)),
            !fits ==> digits_value(cs@.subrange(from as int, i as int)) > u128::MAX,
        decreases to - i,
    {
        let ch = cs[i];
        if !('0' <= ch && ch <= '9') {
            assert(!is_digit(whole[i - from]));
            return None;
        }
        let ghost prev = cs@.subrange(from as int, i as int);
        let ghost next = cs@.subrange(from as int, i + 1);
        assert(next.drop_last() =~= prev);
        assert(all_digits(next));
        let d = (ch as u32 - '0' as u32) as u128;
        if fits {
            if v > (u128::MAX - d) / 10 {
                fits = false;
            } else {
                v = v * 10 + d;
            }
        } else {
            proof {
                lemma_digits_value_nonnegative(prev);
            }
        }
        i = i + 1;
    }
    assert(cs@.subrange(from as int, i as int) =~= whole);
    if fits {
        Some(v)
    } else {
        None
    }
}

/// `parse_row` in terms of the positions of the first three commas.
proof fn lemma_parse_row_at(l: Seq<char>, a: int, b: int, c: int)
    requires
        0 <= a < l.len(),
        a == index_of(l, ','),
        a < b < l.len(),
        b == a + 1 + index_of(l.skip(a + 1), ','),
        b < c <= l.len(),
        c == b + 1 + index_of(l.skip(b + 1), ','),
    ensures
        ({
            let code = digits_field(l.subrange(a + 1, b));
            let elapsed = digits_field(l.subrange(b + 1, c));
            parse_row(l) == if c + 1 < l.len() && l[c + 1] == ' ' && code is Some && code->0
                <= u16::MAX && elapsed is Some && elapsed->0 <= u128::MAX {
                Some(
                    RowView {
                        host: l.subrange(0, a),
                        response_code: code->0,
                        elapsed: elapsed->0,
                        body: l.subrange(c + 2, l.len() as int),
                    },
                )
            } else {
                None
            }
        }),
{
    let r1 = l.skip(a + 1);
    let r2 = r1.skip(b - a);
    assert(r2 =~= l.skip(b + 1));
    assert(r1.take(b - a - 1) =~= l.subrange(a + 1, b));
    assert(l.take(a) =~= l.subrange(0, a));
    if c < l.len() {
        let r3 = r2.skip(c - b);
        assert(r3 =~= l.skip(c + 1));
        assert(r2.take(c - b - 1) =~= l.subrange(b + 1, c));
        if c + 1 < l.len() {
            assert(r3.skip(1) =~= l.subrange(c + 2, l.len() as int));
        }
    }
}

/// Relies on `String::push`: appends one character.
#[verifier::external_body]
fn push_char(s: &mut String, c: char)
    ensures
        final(s)@ == old(s)@.push(c),
{
    s.push(c)
}

/// The string of the characters `cs[from..to]`.
fn string_of(cs: &Vec<char>, from: usize, to: usize) -> (r: String)
    requires
        from <= to <= cs@.len(),
    ensures
        r@ == cs@.subrange(from as int, to as int),
{
    let mut r = String::new();
    let mut i = from;
    while i < to
        invariant
            from <= i <= to <= cs@.len(),
            r@ == cs@.subrange(from as int, i as int),
        decreases to - i,
    {
        push_char(&mut r, cs[i]);
        assert(r@ =~= cs@.subrange(from as int, i + 1));
        i = i + 1;
    }
    r
}

/// Reads one row of the log held as characters.
fn parse_row_chars(cs: &Vec<char>) -> (r: Option<CsvRow>)
    ensures
        r is Some <==> parse_row(cs@) is Some,
        r is Some ==> r->0.view() == parse_row(cs@)->0,
{
    let n = cs.len();
    let a = find_from(cs, 0, ',');
    assert(cs@.skip(0) =~= cs@);
    if a >= n {
        return None;
    }
    let b = find_from(cs, a + 1, ',');
    if b >= n {
        assert(cs@.skip(a + 1).len() <= index_of(cs@.skip(a + 1), ','));
        return None;
    }
    let c = find_from(cs, b + 1, ',');
    proof {
        lemma_parse_row_at(cs@, a as int, b as int, c as int);
    }
    if c >= n || c + 1 >= n || cs[c + 1] != ' ' {
        return None;
    }
    let code = parse_digits(cs, a + 1, b);
    let elapsed = parse_digits(cs, b + 1, c);
    match (code, elapsed) {
        (Some(code), Some(elapsed)) => {
            if code > u16::MAX as u128 {
                return None;
            }
            let host = string_of(cs, 0, a);
            let body = string_of(cs, c + 2, n);
            Some(CsvRow { host, response_code: code as u16, elapsed, body })
        },
        _ => None,
    }
}

/// Reads one row of the log: host, status code, elapsed milliseconds, and
/// after a comma and a space the body. `None` when the line is not such a row.
pub fn parse_csv_line(line: &str) -> (r: Option<CsvRow>)
    ensures
        r is Some <==> parse_row(line@) is Some,
        r is Some ==> r->0.view() == parse_row(line@)->0,
{
    let cs = chars_of(line);
    parse_row_chars(&cs)
}

/// The lines of `s` after the partial line `cur`: each newline ends a line;
/// text after the last newline is a line of its own if it is not empty.
pub open spec fn split_lines_from(s: Seq<char>, cur: Seq<char>) -> Seq<Seq<char>>
    decreases s.len(),
{
    if s.len() == 0 {
        if cur.len() == 0 {
            Seq::empty()
        } else {
            seq![cur]
        }
    } else if s[0] == '\n' {
        seq![cur] + split_lines_from(s.drop_first(), Seq::empty())
    } else {
        split_lines_from(s.drop_first(), cur.push(s[0]))
    }
}

/// The lines of a text.
pub open spec fn split_lines(s: Seq<char>) -> Seq<Seq<char>> {
    split_lines_from(s, Seq::empty())
}

/// Reads a whole log: the header line, then one row per line.
pub open spec fn parse_log(s: Seq<char>) -> Option<Seq<RowView>> {
    let ls = split_lines(s);
    if ls.len() >= 1 && ls[0] == CSV_HEADER@ && forall|i: int|
        1 <= i < ls.len() ==> #[trigger] parse_row(ls[i]) is Some {
        Some(ls.skip(1).map_values(|l: Seq<char>| parse_row(l)->0))
    } else {
        None
    }
}

/// The row that a completed request is written as, read back.
pub open spec fn result_view(host: Seq<char>, r: Results) -> RowView {
    RowView {
        host: host,
        response_code: r.response_code as int,
        elapsed: r.elapsed as int,
        body: r.body@,
    }
}

fn split_lines_chars(cs: &Vec<char>) -> (r: Vec<Vec<char>>)
    ensures
        r@.map_values(|l: Vec<char>| l@) == split_lines(cs@),
{
    let mut done: Vec<Vec<char>> = Vec::new();
    let mut cur: Vec<char> = Vec::new();
    let mut i: usize = 0;
    assert(cs@.skip(0) =~= cs@);
    while i < cs.len()
        invariant
            i <= cs@.len(),
            split_lines(cs@) == done@.map_values(|l: Vec<char>| l@) + split_lines_from(
                cs@.skip(i as int),
                cur@,
            ),
        decreases cs@.len() - i,
    {
        let ghost rest = cs@.skip(i as int);
        assert(rest.drop_first() =~= cs@.skip(i + 1));
        assert(rest[0] == cs@[i as int]);
        if cs[i] == '\n' {
            let line = cur;
            cur = Vec::new();
            let ghost before = done@.map_values(|l: Vec<char>| l@);
            done.push(line);
            assert(done@.map_values(|l: Vec<char>| l@) =~= before.push(line@));
            assert(before + (seq![line@] + split_lines_from(cs@.skip(i + 1), Seq::empty()))
                =~= before.push(line@) + split_lines_from(cs@.skip(i + 1), Seq::empty()));
        } else {
            cur.push(cs[i]);
        }
        i = i + 1;
    }
    assert(cs@.skip(i as int) =~= Seq::<char>::empty());
    if cur.len() > 0 {
        let ghost before = done@.map_values(|l: Vec<char>| l@);
        let ghost last = cur@;
        done.push(cur);
        assert(done@.map_values(|l: Vec<char>| l@) =~= before + seq![last]);
    } else {
        assert(done@.map_values(|l: Vec<char>| l@) =~= done@.map_values(|l: Vec<char>| l@)
            + Seq::<Seq<char>>::empty());
    }
    done
}

fn same_chars(a: &Vec<char>, b: &Vec<char>) -> (r: bool)
    ensures
        r == (a@ == b@),
{
    if a.len() != b.len() {
        return false;
    }
    let mut i: usize = 0;
    while i < a.len()
        invariant
            a@.len() == b@.len(),
            i <= a@.len(),
            forall|j: int| 0 <= j < i ==> a@[j] == b@[j],
        decreases a@.len() - i,
    {
        if a[i] != b[i] {
            return false;
        }
        i = i + 1;
    }
    assert(a@ =~= b@);
    true
}

/// Reads a whole log back: the header line, then one row per line. `None`
/// when the header is missing or a line is not a row.
pub fn parse_csv(text: &str) -> (r: Option<Vec<CsvRow>>)
    ensures
        r is Some <==> parse_log(text@) is Some,
        r is Some ==> r->0@.map_values(|row: CsvRow| row.view()) == parse_log(text@)->0,
{
    let cs = chars_of(text);
    let lines = split_lines_chars(&cs);
    let ghost ls = split_lines(text@);
    assert(lines@.len() == ls.len());
    if lines.len() == 0 {
        return None;
    }
    let header = chars_of(CSV_HEADER);
    assert(lines@[0]@ == ls[0]);
    if !same_chars(&lines[0], &header) {
        return None;
    }
    let mut rows: Vec<CsvRow> = Vec::new();
    let mut i: usize = 1;
    while i < lines.len()
        invariant
            1 <= i <= lines@.len(),
            ls == split_lines(text@),
            lines@.len() == ls.len(),
            ls == lines@.map_values(|l: Vec<char>| l@),
            forall|j: int| 1 <= j < i ==> #[trigger] parse_row(ls[j]) is Some,
            rows@.len() == i - 1,
            forall|j: int|
                0 <= j < rows@.len() ==> #[trigger] rows@[j].view() == parse_row(ls[j + 1])->0,
        decreases lines@.len() - i,
    {
        assert(lines@[i as int]@ == ls[i as int]);
        match parse_row_chars(&lines[i]) {
            Some(row) => {
                rows.push(row);
            },
            None => {
                assert(parse_row(ls[i as int]) is None);
                return None;
            },
        }
        i = i + 1;
    }
    assert(rows@.map_values(|row: CsvRow| row.view()) =~= ls.skip(1).map_values(
        |l: Seq<char>| parse_row(l)->0,
    ));
    Some(rows)
}

proof fn lemma_split_line(l: Seq<char>, cur: Seq<char>, rest: Seq<char>)
    requires
        forall|i: int| 0 <= i < l.len() ==> l[i] != '\n',
    ensures
        split_lines_from(l + seq!['\n'] + rest, cur) == seq![cur + l] + split_lines(rest),
    decreases l.len(),
{
    let s = l + seq!['\n'] + rest;
    if l.len() == 0 {
        assert(s.drop_first() =~= rest);
        assert(cur + l =~= cur);
    } else {
        assert(s.drop_first() =~= l.drop_first() + seq!['\n'] + rest);
        lemma_split_line(l.drop_first(), cur.push(l[0]), rest);
        assert(cur.push(l[0]) + l.drop_first() =~= cur + l);
    }
}

proof fn lemma_split_rows(host: Seq<char>, rs: Seq<Results>, rest: Seq<char>)
    requires
        forall|i: int| 0 <= i < host.len() ==> host[i] != '\n',
        forall|k: int, i: int|
            0 <= k < rs.len() && 0 <= i < rs[k].body@.len() ==> #[trigger] rs[k].body@[i] != '\n',
    ensures
        split_lines(csv_rows(host, rs) + rest) == rs.map_values(|r: Results| csv_row(host, r))
            + split_lines(rest),
    decreases rs.len(),
{
    if rs.len() == 0 {
        assert(csv_rows(host, rs) + rest =~= rest);
        assert(rs.map_values(|r: Results| csv_row(host, r)) + split_lines(rest) =~= split_lines(
            rest,
        ));
    } else {
        let last = rs.last();
        let row = csv_row(host, last);
        let front = rs.drop_last();
        lemma_decimal(last.response_code as nat);
        lemma_decimal(last.elapsed as nat);
        assert forall|i: int| 0 <= i < row.len() implies row[i] != '\n' by {
            let code = decimal(last.response_code as nat);
            let el = decimal(last.elapsed as nat);
            assert(row =~= host + seq![','] + code + seq![','] + el + seq![',', ' '] + last.body@);
            if host.len() + 1 <= i < host.len() + 1 + code.len() {
                assert(is_digit(code[i - host.len() - 1]));
            }
            if host.len() + 2 + code.len() <= i < host.len() + 2 + code.len() + el.len() {
                assert(is_digit(el[i - host.len() - 2 - code.len()]));
            }
            if i >= host.len() + 4 + code.len() + el.len() {
                assert(last.body@[i - (host.len() + 4 + code.len() + el.len())] != '\n');
            }
        }
        assert(csv_rows(host, rs) + rest =~= csv_rows(host, front) + (row + seq!['\n'] + rest));
        lemma_split_rows(host, front, row + seq!['\n'] + rest);
        lemma_split_line(row, Seq::empty(), rest);
        assert(Seq::<char>::empty() + row =~= row);
        assert(rs.map_values(|r: Results| csv_row(host, r)) =~= front.map_values(
            |r: Results| csv_row(host, r),
        ).push(row));
        assert(front.map_values(|r: Results| csv_row(host, r)) + (seq![row] + split_lines(rest))
            =~= rs.map_values(|r: Results| csv_row(host, r)) + split_lines(rest));
    }
}

/// Round trip of the whole log: written for a host without commas or
/// newlines, with bodies without newlines, it reads back as one row per
/// completed request, in order, each with the host, status code, elapsed
/// milliseconds and body.
pub proof fn lemma_log_round_trip(host: Seq<char>, rs: Seq<Results>)
    requires
        forall|i: int| 0 <= i < host.len() ==> host[i] != ',' && host[i] != '\n',
        forall|k: int, i: int|
            0 <= k < rs.len() && 0 <= i < rs[k].body@.len() ==> #[trigger] rs[k].body@[i] != '\n',
    ensures
        parse_log(CSV_HEADER@ + seq!['\n'] + csv_rows(host, rs)) == Some(
            rs.map_values(|r: Results| result_view(host, r)),
        ),
{
    let text = CSV_HEADER@ + seq!['\n'] + csv_rows(host, rs);
    reveal_strlit("host,status_code,time_millis,body");
    assert forall|i: int| 0 <= i < CSV_HEADER@.len() implies CSV_HEADER@[i] != '\n' by {}
    lemma_split_line(CSV_HEADER@, Seq::empty(), csv_rows(host, rs));
    assert(Seq::<char>::empty() + CSV_HEADER@ =~= CSV_HEADER@);
    assert(csv_rows(host, rs) + Seq::<char>::empty() =~= csv_rows(host, rs));
    lemma_split_rows(host, rs, Seq::empty());
    let rows = rs.map_values(|r: Results| csv_row(host, r));
    assert(split_lines(Seq::<char>::empty()) =~= Seq::<Seq<char>>::empty());
    assert(rows + Seq::<Seq<char>>::empty() =~= rows);
    let ls = split_lines(text);
    assert(ls =~= seq![CSV_HEADER@] + rows);
    assert forall|i: int| 1 <= i < ls.len() implies #[trigger] parse_row(ls[i]) is Some by {
        assert(ls[i] == csv_row(host, rs[i - 1]));
        lemma_row_round_trip(host, rs[i - 1]);
    }
    let read = ls.skip(1).map_values(|l: Seq<char>| parse_row(l)->0);
    let expected = rs.map_values(|r: Results| result_view(host, r));
    assert forall|i: int| 0 <= i < rs.len() implies #[trigger] read[i] == expected[i] by {
        assert(ls[i + 1] == csv_row(host, rs[i]));
        lemma_row_round_trip(host, rs[i]);
    }
    assert(read =~= expected);
}

} // verus!
