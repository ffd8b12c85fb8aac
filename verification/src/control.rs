//! The control-plane command parser: one line of bytes from the control
//! socket becomes one command.
//!
//! `save` asks for a snapshot write, `stop` for a final write and shutdown,
//! `exit` closes the control connection, and anything else is ignored.
//! Leading and trailing ASCII whitespace is disregarded.

use vstd::prelude::*;

verus! {

/// A line received on the control socket.
#[derive(Clone, Copy, PartialEq, Eq, Structural, Debug)]
pub enum ControlCommand {
    Save,
    Stop,
    Exit,
    Ignore,
}

/// ASCII whitespace: space, tab, line feed, vertical tab, form feed,
/// carriage return.
pub open spec fn is_ws(b: u8) -> bool {
    b == 32 || (9 <= b && b <= 13)
}

pub open spec fn trim_front(s: Seq<u8>) -> Seq<u8>
    decreases s.len(),
{
    if s.len() > 0 && is_ws(s[0]) {
        trim_front(s.drop_first())
    } else {
        s
    }
}

pub open spec fn trim_back(s: Seq<u8>) -> Seq<u8>
    decreases s.len(),
{
    if s.len() > 0 && is_ws(s.last()) {
        trim_back(s.drop_last())
    } else {
        s
    }
}

/// The line with leading and trailing ASCII whitespace removed.
pub open spec fn spec_trim(s: Seq<u8>) -> Seq<u8> {
    trim_back(trim_front(s))
}

pub open spec fn save_word() -> Seq<u8> {
    seq![115u8, 97u8, 118u8, 101u8]
}

pub open spec fn stop_word() -> Seq<u8> {
    seq![115u8, 116u8, 111u8, 112u8]
}

pub open spec fn exit_word() -> Seq<u8> {
    seq![101u8, 120u8, 105u8, 116u8]
}

/// What a control line means: its trimmed text decides, and unknown text is
/// ignored rather than an error.
pub open spec fn spec_parse(s: Seq<u8>) -> ControlCommand {
    let t = spec_trim(s);
    if t == save_word() {
        ControlCommand::Save
    } else if t == stop_word() {
        ControlCommand::Stop
    } else if t == exit_word() {
        ControlCommand::Exit
    } else {
        ControlCommand::Ignore
    }
}

/// ASCII whitespace test on one byte.
fn ws_byte(b: u8) -> (r: bool)
    ensures
        r == is_ws(b),
{
    b == 32 || (9 <= b && b <= 13)
}

/// Whether a byte string is exactly the four given bytes.
fn eq4(t: &[u8], a: u8, b: u8, c: u8, d: u8) -> (r: bool)
    ensures
        r == (t@ == seq![a, b, c, d]),
{
    if t.len() == 4 {
        let r = *vstd::slice::slice_index_get(t, 0) == a && *vstd::slice::slice_index_get(t, 1)
            == b && *vstd::slice::slice_index_get(t, 2) == c && *vstd::slice::slice_index_get(
            t,
            3,
        ) == d;
        proof {
            if r {
                assert(t@ =~= seq![a, b, c, d]);
            } else {
                if t@ == seq![a, b, c, d] {
                    assert(t@[0] == a && t@[1] == b && t@[2] == c && t@[3] == d);
                }
            }
        }
        r
    } else {
        proof {
            assert(seq![a, b, c, d].len() == 4);
        }
        false
    }
}

/// Parses one control line. Exactly the lines whose trimmed text is `save`,
/// `stop` or `exit` act; everything else is ignored.
#[verifier::loop_isolation(false)]
pub fn parse_control_command(line: &[u8]) -> (c: ControlCommand)
    ensures
        c == spec_parse(line@),
{
    let mut start: usize = 0;
    let mut end: usize = line.len();
    proof {
        assert(line@.skip(0) =~= line@);
    }
    while start < end && ws_byte(*vstd::slice::slice_index_get(line, start))
        invariant
            start <= end,
            end == line@.len(),
            trim_front(line@) == trim_front(line@.skip(start as int)),
        decreases end - start,
    {
        proof {
            assert(line@.skip(start as int).drop_first() =~= line@.skip(start as int + 1));
        }
        start += 1;
    }
    proof {
        if start < end {
            assert(line@.skip(start as int)[0] == line@[start as int]);
        }
        assert(trim_front(line@) == line@.skip(start as int));
        assert(line@.subrange(start as int, end as int) =~= line@.skip(start as int));
    }
    while end > start && ws_byte(*vstd::slice::slice_index_get(line, end - 1))
        invariant
            start <= end <= line@.len(),
            spec_trim(line@) == trim_back(line@.subrange(start as int, end as int)),
        decreases end,
    {
        proof {
            let sub = line@.subrange(start as int, end as int);
            assert(sub.last() == line@[end - 1]);
            assert(sub.drop_last() =~= line@.subrange(start as int, end as int - 1));
        }
        end -= 1;
    }
    proof {
        let sub = line@.subrange(start as int, end as int);
        if end > start {
            assert(sub.last() == line@[end - 1]);
        }
        assert(spec_trim(line@) == sub);
    }
    let t = vstd::slice::slice_subrange(line, start, end);
    if eq4(t, 115, 97, 118, 101) {
        ControlCommand::Save
    } else if eq4(t, 115, 116, 111, 112) {
        ControlCommand::Stop
    } else if eq4(t, 101, 120, 105, 116) {
        ControlCommand::Exit
    } else {
        ControlCommand::Ignore
    }
}

} // verus!
