//! Nested timers: how far a message is indented, and how a duration reads.

use crate::text::{decimal, decimal_usize};
use colored::Colorize;
use vstd::prelude::*;
use vstd::string::*;

verus! {

pub const PAD_CHAR: &'static str = "·";

/// A running timer.
#[derive(Debug)]
pub struct TimerInfo {
    pub msg: String,
    /// When it was started, in nanoseconds of the caller's clock.
    pub time: u64,
}

/// The timers of a thread that run within each other.
#[derive(Debug)]
pub struct NestedEvent {
    /// The message of the outermost timer.
    pub root_msg: String,
    /// The number of timers that run.
    pub num_indent: usize,
}

impl NestedEvent {
    /// Starts a timer within those that run; gives the indentation of its
    /// message. The first timer of a thread, and one that is started when none
    /// runs, is the outermost.
    pub fn start(running: Option<NestedEvent>, msg: &str) -> (r: (NestedEvent, usize))
        requires
            running matches Some(e) ==> e.num_indent <= usize::MAX / 2,
        ensures
            ({
                let before = match running {
                    Some(e) => e.num_indent,
                    None => 0,
                };
                &&& r.0.num_indent == before + 1
                &&& r.1 == 2 * before
                &&& r.0.root_msg@ == (if before == 0 {
                    msg@
                } else {
                    running->0.root_msg@
                })
            }),
    {
        match running {
            Some(event) => {
                let indent_amount = 2 * event.num_indent;
                let num_indent = event.num_indent + 1;
                if indent_amount == 0 {
                    (NestedEvent { root_msg: msg.to_string(), num_indent }, indent_amount)
                } else {
                    (NestedEvent { root_msg: event.root_msg, num_indent }, indent_amount)
                }
            },
            None => (NestedEvent { root_msg: msg.to_string(), num_indent: 1 }, 0),
        }
    }

    /// Ends the innermost timer; gives the indentation of its message.
    pub fn end(&mut self) -> (r: usize)
        requires
            0 < old(self).num_indent <= usize::MAX / 2,
        ensures
            final(self).num_indent == old(self).num_indent - 1,
            final(self).root_msg == old(self).root_msg,
            r == 2 * final(self).num_indent,
    {
        self.num_indent = self.num_indent - 1;
        2 * self.num_indent
    }
}

/// A timer that ends is indented as when it was started.
pub proof fn law_timers_nest(before: NestedEvent, started: NestedEvent, indent: int,
    ended: NestedEvent)
    requires
        started.num_indent == before.num_indent + 1,
        indent == 2 * before.num_indent,
        ended.num_indent == started.num_indent - 1,
    ensures
        2 * ended.num_indent == indent,
        ended.num_indent == before.num_indent,
{
}

/// `colored::Colorize::white`, read as text: a coloured string stands for its
/// text alone, without the colour.
#[verifier::external_body]
fn white(s: &str) -> (r: String)
    ensures
        r@ == s@,
{
    let coloured = s.white();
    String::from(&*coloured)
}

/// The given number of padding characters.
pub fn compute_indent(indent_amount: usize) -> (r: String)
    ensures
        r@ == Seq::new(indent_amount as nat, |i: int| '·'),
{
    let mut indent: String = String::from_str("");
    proof {
        reveal_strlit("");
        reveal_strlit("·");
    }
    let mut i: usize = 0;
    assert(indent@ =~= Seq::new(0, |i: int| '·'));
    while i < indent_amount
        invariant
            i <= indent_amount,
            PAD_CHAR@ =~= seq!['·'],
            indent@ == Seq::new(i as nat, |i: int| '·'),
        decreases indent_amount - i,
    {
        indent.append(white(PAD_CHAR).as_str());
        assert(indent@ =~= Seq::new((i + 1) as nat, |i: int| '·'));
        i += 1;
    }
    indent
}

/// Three decimal digits.
pub open spec fn three_digits(n: int) -> Seq<char> {
    (if n < 10 {
        seq!['0', '0']
    } else if n < 100 {
        seq!['0']
    } else {
        Seq::empty()
    }) + decimal(n)
}

fn push_three_digits(out: &mut String, n: usize)
    requires
        n < 1000,
    ensures
        final(out)@ == old(out)@ + three_digits(n as int),
{
    let ghost first = out@;
    proof {
        reveal_strlit("00");
        reveal_strlit("0");
    }
    if n < 10 {
        out.append("00");
    } else if n < 100 {
        out.append("0");
    }
    out.append(decimal_usize(n).as_str());
    assert(out@ =~= first + three_digits(n as int));
}

/// How a duration reads: in the largest unit of which it holds at least one, with
/// three digits behind the point.
pub open spec fn duration_text(secs: u64, subsec_nanos: u32) -> Seq<char> {
    let millis = subsec_nanos as int / 1_000_000;
    let micros = subsec_nanos as int / 1000 % 1000;
    let nanos = subsec_nanos as int % 1000;
    if secs != 0 {
        decimal(secs as int) + seq!['.'] + three_digits(millis) + seq!['s']
    } else if millis > 0 {
        decimal(millis) + seq!['.'] + three_digits(micros) + seq!['m', 's']
    } else if micros > 0 {
        decimal(micros) + seq!['.'] + three_digits(nanos) + seq!['µ', 's']
    } else {
        decimal(subsec_nanos as int) + seq!['n', 's']
    }
}

/// A duration as text.
pub fn format_duration(secs: u64, subsec_nanos: u32) -> (r: String)
    requires
        secs <= usize::MAX,
        subsec_nanos < 1_000_000_000,
    ensures
        r@ == duration_text(secs, subsec_nanos),
{
    proof {
        reveal_strlit("");
        reveal_strlit(".");
        reveal_strlit("s");
        reveal_strlit("ms");
        reveal_strlit("µs");
        reveal_strlit("ns");
    }
    let millis = subsec_nanos / 1_000_000;
    let micros = subsec_nanos / 1000 % 1000;
    let nanos = subsec_nanos % 1000;
    let mut out: String = String::from_str("");
    if secs != 0 {
        out.append(decimal_usize(secs as usize).as_str());
        out.append(".");
        push_three_digits(&mut out, millis as usize);
        out.append("s");
    } else if millis > 0 {
        out.append(decimal_usize(millis as usize).as_str());
        out.append(".");
        push_three_digits(&mut out, micros as usize);
        out.append("ms");
    } else if micros > 0 {
        out.append(decimal_usize(micros as usize).as_str());
        out.append(".");
        push_three_digits(&mut out, nanos as usize);
        out.append("µs");
    } else {
        out.append(decimal_usize(subsec_nanos as usize).as_str());
        out.append("ns");
    }
    assert(out@ =~= duration_text(secs, subsec_nanos));
    out
}

} // verus!
