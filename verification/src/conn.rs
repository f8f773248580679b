//! The connection layer: construction failures, the redaction rule for
//! diagnostic output, and the in-memory test transport.
//!
//! A connection owns one duplex byte stream and offers line-granular read
//! and write.  The network-backed variant lives outside this library; the
//! in-memory [`TestConn`] here exposes the same contract, so the framing
//! and redaction logic can be exercised without a live socket.  Writing a
//! message frames it with [`crate::framer::split`], records one write per
//! wire line in input order, and flushes once after the whole sequence;
//! reading yields the preloaded lines in order, terminators stripped, and
//! then no value.

use vstd::prelude::*;
use vstd::string::*;
use vstd::utf8::*;

use crate::framer::colon_byte;
use crate::framer::crlf;
use crate::framer::frame_bytes;
use crate::framer::head_sep;
use crate::framer::is_space_byte;
use crate::framer::lemma_filter_none;
use crate::framer::lemma_first_colon_props;
use crate::framer::lemma_frame_split_lines;
use crate::framer::lemma_trim_keeps_prefix;
use crate::framer::lines_bytes;
use crate::framer::split;
use crate::framer::split_head;
use crate::framer::takes_single_line;

verus! {

/// Why a connection could not be constructed.
///
/// Failures after construction are not raised as typed errors: a failed
/// read yields no value and a failed write is abandoned silently.
pub enum ConnError {
    /// The address could not be parsed into a connectable endpoint.
    InvalidAddress,
    /// The endpoint was well-formed but the transport could not be
    /// established.
    CannotConnect,
}

impl ConnError {
    /// A short description of the failure.
    pub fn describe(&self) -> (r: &'static str)
        ensures
            r@ == match self {
                ConnError::InvalidAddress => "invalid address"@,
                ConnError::CannotConnect => "cannot connect"@,
            },
    {
        match self {
            ConnError::InvalidAddress => "invalid address",
            ConnError::CannotConnect => "cannot connect",
        }
    }
}

/// The four bytes of the password-authentication command name.
pub open spec fn auth_prefix() -> Seq<u8> {
    seq![80u8, 65u8, 83u8, 83u8]
}

/// True for a wire line whose content must never be surfaced in
/// diagnostics: one whose first four bytes are the
/// password-authentication command name.
pub open spec fn is_redacted(line: Seq<u8>) -> bool {
    line.len() >= 4 && line.take(4) == auth_prefix()
}

/// A line with its terminator stripped: one trailing line feed is removed,
/// and a carriage return directly before it.
pub open spec fn strip_terminator(line: Seq<u8>) -> Seq<u8> {
    if line.len() > 0 && line.last() == 10 {
        let t = line.drop_last();
        if t.len() > 0 && t.last() == 13 {
            t.drop_last()
        } else {
            t
        }
    } else {
        line
    }
}

/// What surfacing one wire line shows: nothing for a redacted line,
/// otherwise the line with its terminator stripped.
pub open spec fn diag_bytes(line: Seq<u8>) -> Option<Seq<u8>> {
    if is_redacted(line) {
        None
    } else {
        Some(strip_terminator(line))
    }
}

/// The diagnostic entries that surfacing a sequence of wire lines adds:
/// the non-redacted lines in order, each with its terminator stripped.
pub open spec fn surfaced_lines(lines: Seq<Seq<u8>>) -> Seq<Seq<u8>> {
    lines.filter(|l: Seq<u8>| !is_redacted(l)).map_values(|l: Seq<u8>| strip_terminator(l))
}

/// Strips the terminator from one received or written line.
fn strip_line(line: &str) -> (r: String)
    ensures
        encode_utf8(r@) == strip_terminator(line.spec_bytes()),
{
    proof {
        encode_utf8_valid_utf8(line@);
    }
    let ghost b = line.spec_bytes();
    let bytes = line.as_bytes();
    let n = bytes.len();
    let end = if n > 0 && bytes[n - 1] == 10 {
        if n > 1 && bytes[n - 2] == 13 {
            n - 2
        } else {
            n - 1
        }
    } else {
        n
    };
    proof {
        if (end as int) < b.len() {
            assert(b[end as int] == 10 || b[end as int] == 13);
            is_char_boundary_iff_not_is_continuation_byte(b, end as int);
        } else {
            is_char_boundary_start_end_of_seq(b);
        }
        assert(is_char_boundary(b, end as int));
    }
    let (body, _) = line.split_at(end);
    proof {
        assert(body.spec_bytes() =~= b.take(end as int));
        if n > 0 && b[n - 1] == 10 {
            let t = b.drop_last();
            if n > 1 && b[n - 2] == 13 {
                assert(t.len() > 0 && t.last() == 13);
                assert(t.drop_last() =~= b.take(n - 2));
            } else {
                if t.len() > 0 {
                    assert(t.last() == b[n - 2]);
                }
                assert(t =~= b.take(n - 1));
            }
        } else {
            assert(b.take(n as int) =~= b);
        }
        assert(body.spec_bytes() == strip_terminator(b));
    }
    body.to_owned()
}

/// The diagnostic form of one wire line: no value for a line that begins
/// with the password-authentication command name, otherwise the line with
/// its terminator stripped.
pub fn diagnostic_form(line: &str) -> (r: Option<String>)
    ensures
        match r {
            Some(s) => diag_bytes(line.spec_bytes()) == Some(encode_utf8(s@)),
            None => diag_bytes(line.spec_bytes()) is None,
        },
{
    let ghost b = line.spec_bytes();
    let bytes = line.as_bytes();
    let n = bytes.len();
    if n >= 4 && bytes[0] == 80 && bytes[1] == 65 && bytes[2] == 83 && bytes[3] == 83 {
        proof {
            assert(b.take(4) =~= auth_prefix());
        }
        return None;
    }
    proof {
        if b.len() >= 4 && b.take(4) == auth_prefix() {
            assert(b[0] == b.take(4)[0] && b[1] == b.take(4)[1] && b[2] == b.take(4)[2] && b[3]
                == b.take(4)[3]);
            assert(false);
        }
    }
    Some(strip_line(line))
}

/// One observable action on the test transport's write side.
pub enum StreamEvent {
    /// One wire line's bytes were handed to the stream as a single write.
    Line(String),
    /// The write side was flushed.
    Flush,
}

/// True when the event is a line write carrying exactly these bytes.
pub open spec fn event_line_holds(e: StreamEvent, bytes: Seq<u8>) -> bool {
    e matches StreamEvent::Line(l) && encode_utf8(l@) == bytes
}

/// An in-memory transport double with the same line-granular contract as
/// the network-backed connection: preloaded incoming lines are read back
/// in order with terminators stripped, and every outbound write and flush
/// is recorded in order.
pub struct TestConn {
    /// Wire lines the peer will deliver, in order, terminators included.
    pub incoming: Vec<String>,
    /// How many incoming lines have been consumed so far.
    pub consumed: usize,
    /// Everything handed to the stream's write side, in order.
    pub events: Vec<StreamEvent>,
    /// Diagnostic entries surfaced so far, oldest first.
    pub log: Vec<String>,
}

impl TestConn {
    /// A fresh transport that will deliver the given lines and has seen no
    /// traffic.
    pub fn new(incoming: Vec<String>) -> (c: TestConn)
        ensures
            c.incoming == incoming,
            c.consumed == 0,
            c.events@ == Seq::<StreamEvent>::empty(),
            c.log@ == Seq::<String>::empty(),
    {
        TestConn { incoming, consumed: 0, events: Vec::new(), log: Vec::new() }
    }

    /// Reads one line: the next preloaded line with its terminator
    /// stripped, or no value once the stream is exhausted.
    pub fn read(&mut self) -> (r: Option<String>)
        ensures
            final(self).incoming == old(self).incoming,
            final(self).events == old(self).events,
            final(self).log == old(self).log,
            old(self).consumed < old(self).incoming@.len() ==> {
                &&& final(self).consumed == old(self).consumed + 1
                &&& r matches Some(s) && encode_utf8(s@) == strip_terminator(
                    encode_utf8(old(self).incoming@[old(self).consumed as int]@),
                )
            },
            old(self).consumed >= old(self).incoming@.len() ==> {
                &&& final(self).consumed == old(self).consumed
                &&& r is None
            },
    {
        if self.consumed < self.incoming.len() {
            let line: &String = &self.incoming[self.consumed];
            let stripped = strip_line(line.as_str());
            self.consumed = self.consumed + 1;
            Some(stripped)
        } else {
            None
        }
    }

    /// Writes one outbound message: frames it, hands each wire line to the
    /// stream as one write in frame order, then flushes once after the
    /// whole sequence.  Non-redacted lines are surfaced to the diagnostic
    /// log with their terminators stripped; a line that begins with the
    /// password-authentication command name never is.
    pub fn write(&mut self, data: &str)
        ensures
            final(self).incoming == old(self).incoming,
            final(self).consumed == old(self).consumed,
            final(self).events@.len() == old(self).events@.len() + frame_bytes(
                data.spec_bytes(),
            ).len() + 1,
            forall|t: int|
                0 <= t < old(self).events@.len() ==> final(self).events@[t] == old(
                    self,
                ).events@[t],
            forall|j: int|
                0 <= j < frame_bytes(data.spec_bytes()).len() ==> event_line_holds(
                    #[trigger] final(self).events@[old(self).events@.len() + j],
                    frame_bytes(data.spec_bytes())[j],
                ),
            final(self).events@.last() is Flush,
            lines_bytes(final(self).log@) == lines_bytes(old(self).log@) + surfaced_lines(
                frame_bytes(data.spec_bytes()),
            ),
    {
        let lines = split(data);
        let ghost frames = frame_bytes(data.spec_bytes());
        proof {
            assert(surfaced_lines(frames.take(0)) =~= Seq::<Seq<u8>>::empty()) by {
                reveal_with_fuel(Seq::<_>::filter, 2);
                assert(frames.take(0) =~= Seq::<Seq<u8>>::empty());
            }
            assert(lines_bytes(self.log@) + surfaced_lines(frames.take(0)) =~= lines_bytes(
                self.log@,
            ));
        }
        let mut j: usize = 0;
        while j < lines.len()
            invariant
                j <= lines@.len(),
                lines_bytes(lines@) == frames,
                self.incoming == old(self).incoming,
                self.consumed == old(self).consumed,
                self.events@.len() == old(self).events@.len() + j,
                forall|t: int|
                    0 <= t < old(self).events@.len() ==> self.events@[t] == old(self).events@[t],
                forall|t: int|
                    0 <= t < j ==> event_line_holds(
                        #[trigger] self.events@[old(self).events@.len() + t],
                        frames[t],
                    ),
                lines_bytes(self.log@) == lines_bytes(old(self).log@) + surfaced_lines(
                    frames.take(j as int),
                ),
            decreases lines@.len() - j,
        {
            let line: &String = &lines[j];
            proof {
                assert(frames[j as int] == encode_utf8(lines@[j as int]@));
            }
            let ghost log_before = self.log@;
            match diagnostic_form(line.as_str()) {
                Some(entry) => {
                    self.log.push(entry);
                    proof {
                        assert(lines_bytes(self.log@) =~= lines_bytes(log_before) + seq![
                            encode_utf8(entry@),
                        ]);
                    }
                },
                None => {},
            }
            proof {
                lemma_surfaced_push(frames, j as int);
                if !is_redacted(frames[j as int]) {
                    assert(lines_bytes(old(self).log@) + (surfaced_lines(frames.take(j as int))
                        + seq![strip_terminator(frames[j as int])]) =~= (lines_bytes(
                        old(self).log@,
                    ) + surfaced_lines(frames.take(j as int))) + seq![
                        strip_terminator(frames[j as int]),
                    ]);
                } else {
                    assert(surfaced_lines(frames.take(j as int)) + Seq::<Seq<u8>>::empty()
                        =~= surfaced_lines(frames.take(j as int)));
                }
            }
            let ghost events_before = self.events@;
            self.events.push(StreamEvent::Line(line.clone()));
            proof {
                assert(self.events@ =~= events_before.push(
                    StreamEvent::Line(lines@[j as int]),
                ));
            }
            j = j + 1;
        }
        proof {
            assert(frames.take(frames.len() as int) =~= frames);
        }
        self.events.push(StreamEvent::Flush);
    }
}

/// A message that begins with the password-authentication command name
/// frames only to redacted lines, so writing it adds no diagnostic entry
/// at all: its content never appears in the log.
pub proof fn lemma_auth_never_surfaced(msg: Seq<u8>)
    requires
        msg.len() >= 4,
        msg.take(4) == auth_prefix(),
    ensures
        forall|j: int|
            0 <= j < frame_bytes(msg).len() ==> is_redacted(#[trigger] frame_bytes(msg)[j]),
        surfaced_lines(frame_bytes(msg)) == Seq::<Seq<u8>>::empty(),
{
    assert(msg[0] == 80 && msg[1] == 65 && msg[2] == 83 && msg[3] == 83) by {
        assert(msg.take(4)[0] == msg[0] && msg.take(4)[1] == msg[1] && msg.take(4)[2] == msg[2]
            && msg.take(4)[3] == msg[3]);
    }
    if takes_single_line(msg) {
        let l = msg + crlf();
        assert(frame_bytes(msg) == seq![l]);
        assert(l.take(4) =~= auth_prefix());
        assert(is_redacted(l));
        assert(forall|j: int|
            0 <= j < frame_bytes(msg).len() ==> is_redacted(#[trigger] frame_bytes(msg)[j]));
    } else {
        let head = split_head(msg);
        lemma_first_colon_props(msg);
        let i = crate::framer::first_colon(msg);
        assert(i >= 4) by {
            assert(msg[0] != colon_byte() && msg[1] != colon_byte() && msg[2] != colon_byte()
                && msg[3] != colon_byte());
        }
        let pre = msg.take(i);
        assert(forall|j: int| 0 <= j < 4 ==> !is_space_byte(#[trigger] pre[j]));
        lemma_trim_keeps_prefix(pre, 4);
        assert(head.len() >= 4);
        assert(head[0] == 80 && head[1] == 65 && head[2] == 83 && head[3] == 83);
        lemma_frame_split_lines(msg);
        assert forall|j: int|
            0 <= j < frame_bytes(msg).len() implies is_redacted(
            #[trigger] frame_bytes(msg)[j],
        ) by {
            let l = frame_bytes(msg)[j];
            assert(l.take(head.len() + 2 as int) == head + head_sep());
            assert(l[0] == head[0] && l[1] == head[1] && l[2] == head[2] && l[3] == head[3]) by {
                let hp = l.take(head.len() + 2 as int);
                assert(hp[0] == l[0] && hp[1] == l[1] && hp[2] == l[2] && hp[3] == l[3]);
                assert(hp[0] == head[0] && hp[1] == head[1] && hp[2] == head[2] && hp[3]
                    == head[3]);
            }
            assert(l.take(4) =~= auth_prefix());
        }
    }
    lemma_filter_none(frame_bytes(msg), |l: Seq<u8>| !is_redacted(l));
    assert(surfaced_lines(frame_bytes(msg)) =~= Seq::<Seq<u8>>::empty());
}

/// Appending one more wire line to a surfaced sequence appends its
/// stripped form when it is not redacted, and nothing when it is.
proof fn lemma_surfaced_push(lines: Seq<Seq<u8>>, j: int)
    requires
        0 <= j < lines.len(),
    ensures
        surfaced_lines(lines.take(j + 1)) == surfaced_lines(lines.take(j)) + (if !is_redacted(
            lines[j],
        ) {
            seq![strip_terminator(lines[j])]
        } else {
            Seq::<Seq<u8>>::empty()
        }),
{
    let pred = |l: Seq<u8>| !is_redacted(l);
    let f = |l: Seq<u8>| strip_terminator(l);
    assert(lines.take(j + 1) =~= lines.take(j) + seq![lines[j]]);
    Seq::filter_distributes_over_add(lines.take(j), seq![lines[j]], pred);
    reveal_with_fuel(Seq::<_>::filter, 2);
    assert(seq![lines[j]].drop_last() =~= Seq::<Seq<u8>>::empty());
    let a = lines.take(j).filter(pred);
    let b = seq![lines[j]].filter(pred);
    assert((a + b).map_values(f) =~= a.map_values(f) + b.map_values(f));
    if pred(lines[j]) {
        assert(b =~= seq![lines[j]]);
        assert(b.map_values(f) =~= seq![f(lines[j])]);
    } else {
        assert(b =~= Seq::<Seq<u8>>::empty());
        assert(b.map_values(f) =~= Seq::<Seq<u8>>::empty());
    }
}

} // verus!
