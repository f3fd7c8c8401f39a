use vstd::prelude::*;

use crate::aggregate::App;
use crate::csv::{decimal, decimal_string};

verus! {

/// A terminal surface the dashboard is drawn on: set up before the run and
/// restored after it.
pub trait UIHandler: Sized {
    fn new() -> Self;

    fn restore_ui(&mut self);

    fn init_ui(&mut self);
}

/// `n` spaces.
pub open spec fn spaces(n: nat) -> Seq<char>
    decreases n,
{
    if n == 0 {
        Seq::empty()
    } else {
        spaces((n - 1) as nat).push(' ')
    }
}

/// `s` padded with spaces on the right to at least `width` characters.
pub open spec fn padded(s: Seq<char>, width: nat) -> Seq<char> {
    if s.len() >= width {
        s
    } else {
        s + spaces((width - s.len()) as nat)
    }
}

/// A header as shown in the session details: an arrow, then the header
/// padded to the column width.
pub open spec fn header_display(pair: Seq<char>, width: nat) -> Seq<char> {
    " > "@ + padded(pair, width)
}

fn pad_to(s: &mut String, width: usize)
    ensures
        final(s)@ == padded(old(s)@, width as nat),
{
    proof {
        reveal_strlit(" ");
        assert(" "@ =~= seq![' ']);
    }
    let ghost start = s@;
    let mut n: usize = s.as_str().unicode_len();
    if n >= width {
        return;
    }
    let ghost first = n;
    while n < width
        invariant
            first <= n <= width,
            first == start.len(),
            s@ == start + spaces((n - first) as nat),
        decreases width - n,
    {
        proof {
            reveal_strlit(" ");
        }
        s.append(" ");
        proof {
            assert(spaces((n + 1 - first) as nat) == spaces((n - first) as nat).push(' '));
            assert(s@ =~= start + spaces((n + 1 - first) as nat));
        }
        n = n + 1;
    }
}

impl App {
    /// Lines of the details area: host, method, concurrency, and the title
    /// of the header list.
    pub fn details_lines(&self) -> (r: Vec<String>)
        ensures
            r@.len() == 4,
            r@[0]@ == " Host: "@ + self.spec_args().url@,
            r@[1]@ == " Method: "@ + self.spec_args().method@,
            r@[2]@ == " Concurrent Requests: "@ + decimal(
                self.spec_args().concurrent_requests as nat,
            ),
            r@[3]@ == " Headers: "@,
    {
        let args = self.args();
        let mut host = String::from_str(" Host: ");
        host.append(args.url.as_str());
        let mut method = String::from_str(" Method: ");
        method.append(args.method.as_str());
        let mut concurrency = String::from_str(" Concurrent Requests: ");
        let n = decimal_string(args.concurrent_requests as u128);
        concurrency.append(n.as_str());
        let headers = String::from_str(" Headers: ");
        let mut r: Vec<String> = Vec::new();
        r.push(host);
        r.push(method);
        r.push(concurrency);
        r.push(headers);
        r
    }

    /// The header lines of the details area, each padded to `col_max_width`.
    pub fn header_lines(&self, col_max_width: u16) -> (r: Vec<String>)
        ensures
            r@.len() == self.spec_args().headers@.len(),
            forall|i: int|
                0 <= i < r@.len() ==> #[trigger] r@[i]@ == header_display(
                    self.spec_args().headers@[i]@,
                    col_max_width as nat,
                ),
    {
        let headers = &self.args().headers;
        let mut r: Vec<String> = Vec::new();
        let mut i: usize = 0;
        while i < headers.len()
            invariant
                *headers == self.spec_args().headers,
                i <= headers@.len(),
                r@.len() == i,
                forall|j: int|
                    0 <= j < i ==> #[trigger] r@[j]@ == header_display(
                        headers@[j]@,
                        col_max_width as nat,
                    ),
            decreases headers@.len() - i,
        {
            let mut line = String::from_str(headers[i].as_str());
            pad_to(&mut line, col_max_width as usize);
            let mut shown = String::from_str(" > ");
            shown.append(line.as_str());
            r.push(shown);
            i = i + 1;
        }
        r
    }

    /// Lines the details area needs for the headers: one per header plus
    /// one, at most `u16::MAX`.
    pub fn header_frame_height(&self) -> (r: u16)
        ensures
            r == if self.spec_args().headers@.len() + 1 <= u16::MAX {
                self.spec_args().headers@.len() + 1int
            } else {
                u16::MAX as int
            },
    {
        let n = self.args().headers.len();
        if n < u16::MAX as usize {
            (n + 1) as u16
        } else {
            u16::MAX
        }
    }
}

} // verus!
