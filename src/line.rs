//! The grammar of one log line: `HH:MM:SS`, a separator byte, a marker byte
//! and the body.
use vstd::prelude::*;
use crate::clock::{civil_seconds, clock_of, parse_clock, LogDate, TimeOfDay, Timestamp};

verus! {

/// What a log line records.
#[derive(Clone, Copy, Debug, PartialEq, Eq, Structural)]
pub enum EntryKind {
    SysMsg,
    Join,
    Part,
    Msg,
    Notice,
}

/// Why a line was skipped.
#[derive(Clone, Copy, Debug, PartialEq, Eq, Structural)]
pub enum LineError {
    /// Fewer than ten bytes: no room for the time, the separator and a marker.
    TooShort,
    /// The first eight bytes do not start with a time of day.
    BadTime,
    /// A `<` marker without a closing `>`.
    UnclosedNick,
}

/// A line that the grammar accepts: who spoke, what kind of entry it is, and the body.
#[derive(Debug)]
pub struct ParsedLine {
    pub time: TimeOfDay,
    pub user: Vec<u8>,
    pub kind: EntryKind,
    pub body: Vec<u8>,
}

/// The value of a parsed line, with its byte strings as sequences.
pub struct LineView {
    pub time: TimeOfDay,
    pub user: Seq<u8>,
    pub kind: EntryKind,
    pub body: Seq<u8>,
}

impl View for ParsedLine {
    type V = LineView;

    open spec fn view(&self) -> LineView {
        LineView { time: self.time, user: self.user@, kind: self.kind, body: self.body@ }
    }
}

impl EntryKind {
    /// The name under which the kind is stored.
    pub open spec fn name(self) -> Seq<char> {
        match self {
            EntryKind::SysMsg => "sysmsg"@,
            EntryKind::Join => "join"@,
            EntryKind::Part => "part"@,
            EntryKind::Msg => "msg"@,
            EntryKind::Notice => "notice"@,
        }
    }

    pub fn as_str(&self) -> (r: &'static str)
        ensures
            r@ == self.name(),
    {
        match self {
            EntryKind::SysMsg => "sysmsg",
            EntryKind::Join => "join",
            EntryKind::Part => "part",
            EntryKind::Msg => "msg",
            EntryKind::Notice => "notice",
        }
    }
}

/// The user that lines without a speaker are filed under: `server`.
pub open spec fn server_user() -> Seq<u8> {
    seq![115u8, 101u8, 114u8, 118u8, 101u8, 114u8]
}

/// The kind that a marker byte other than `<` gives: `!`, `+`, `-`, or anything else.
pub open spec fn marker_kind(m: u8) -> EntryKind {
    if m == 33 {
        EntryKind::SysMsg
    } else if m == 43 {
        EntryKind::Join
    } else if m == 45 {
        EntryKind::Part
    } else {
        EntryKind::Notice
    }
}

/// The first position at or after `i` where `s` holds `b`.
pub open spec fn find_from(s: Seq<u8>, b: u8, i: int) -> Option<int>
    decreases s.len() - i,
{
    if i < 0 || i >= s.len() {
        None
    } else if s[i] == b {
        Some(i)
    } else {
        find_from(s, b, i + 1)
    }
}

/// What a line means: the time from bytes `0..8`, the marker at byte 9, and the
/// body after it; a `<` marker names the speaker up to the first `>`.
pub open spec fn line_meaning(l: Seq<u8>) -> Result<LineView, LineError> {
    if l.len() < 10 {
        Err(LineError::TooShort)
    } else {
        match clock_of(l.subrange(0, 8)) {
            None => Err(LineError::BadTime),
            Some(t) => if l[9] == 60 {
                match find_from(l, 62, 9) {
                    None => Err(LineError::UnclosedNick),
                    Some(e) => Ok(
                        LineView {
                            time: t,
                            user: l.subrange(10, e),
                            kind: EntryKind::Msg,
                            body: l.subrange(e + 1, l.len() as int),
                        },
                    ),
                }
            } else {
                Ok(
                    LineView {
                        time: t,
                        user: server_user(),
                        kind: marker_kind(l[9]),
                        body: l.subrange(10, l.len() as int),
                    },
                )
            },
        }
    }
}

/// The position found holds `b`; when none is found, no position from `i` on holds it.
pub proof fn lemma_find_from(s: Seq<u8>, b: u8, i: int)
    requires
        0 <= i,
    ensures
        find_from(s, b, i) matches Some(j) ==> i <= j < s.len() && s[j] == b,
        find_from(s, b, i) is None ==> forall|j: int| i <= j < s.len() ==> s[j] != b,
    decreases s.len() - i,
{
    if i < s.len() && s[i] != b {
        lemma_find_from(s, b, i + 1);
    }
}

/// The bytes of `s` from `from` up to `to`.
pub fn copy_range(s: &[u8], from: usize, to: usize) -> (r: Vec<u8>)
    requires
        from <= to <= s@.len(),
    ensures
        r@ == s@.subrange(from as int, to as int),
{
    let mut r: Vec<u8> = Vec::new();
    let mut i = from;
    while i < to
        invariant
            from <= i <= to,
            to <= s@.len(),
            r@ == s@.subrange(from as int, i as int),
        decreases to - i,
    {
        r.push(s[i]);
        i += 1;
        assert(r@ =~= s@.subrange(from as int, i as int));
    }
    r
}

/// The first position at or after `start` where `s` holds `b`.
pub fn find_byte(s: &[u8], b: u8, start: usize) -> (r: Option<usize>)
    requires
        start <= s@.len(),
    ensures
        find_from(s@, b, start as int) == (match r {
            Some(i) => Some(i as int),
            None => None,
        }),
{
    let mut i = start;
    while i < s.len()
        invariant
            start <= i <= s@.len(),
            find_from(s@, b, start as int) == find_from(s@, b, i as int),
        decreases s@.len() - i,
    {
        if s[i] == b {
            return Some(i);
        }
        i += 1;
    }
    None
}

/// The bytes of `server`.
pub fn server_name() -> (r: Vec<u8>)
    ensures
        r@ == server_user(),
{
    let mut r: Vec<u8> = Vec::new();
    r.push(115u8);
    r.push(101u8);
    r.push(114u8);
    r.push(118u8);
    r.push(101u8);
    r.push(114u8);
    assert(r@ =~= server_user());
    r
}

/// Parses one log line; a line that the grammar refuses gives the reason it is skipped.
pub fn parse_line(line: &[u8]) -> (r: Result<ParsedLine, LineError>)
    ensures
        match r {
            Ok(p) => line_meaning(line@) == Ok::<LineView, LineError>(p@),
            Err(e) => line_meaning(line@) == Err::<LineView, LineError>(e),
        },
        r matches Ok(p) ==> p.time.wf(),
        line@.len() < 10 <==> r == Err::<ParsedLine, LineError>(LineError::TooShort),
{
    if line.len() < 10 {
        return Err(LineError::TooShort);
    }
    let head = copy_range(line, 0, 8);
    let time = match parse_clock(head.as_slice()) {
        Some(t) => t,
        None => return Err(LineError::BadTime),
    };
    let marker = line[9];
    if marker == 60u8 {
        match find_byte(line, 62u8, 9) {
            None => Err(LineError::UnclosedNick),
            Some(e) => {
                proof {
                    lemma_find_from(line@, 62u8, 10);
                }
                let user = copy_range(line, 10, e);
                let body = copy_range(line, e + 1, line.len());
                Ok(ParsedLine { time, user, kind: EntryKind::Msg, body })
            },
        }
    } else {
        let kind = if marker == 33u8 {
            EntryKind::SysMsg
        } else if marker == 43u8 {
            EntryKind::Join
        } else if marker == 45u8 {
            EntryKind::Part
        } else {
            EntryKind::Notice
        };
        let body = copy_range(line, 10, line.len());
        Ok(ParsedLine { time, user: server_name(), kind, body })
    }
}

/// The row that one line of a log becomes: speaker, kind, body, and the
/// seconds since 1970 of the line's time on the log's date.
#[derive(Debug)]
pub struct EntryRow {
    pub user: Vec<u8>,
    pub kind: EntryKind,
    pub body: Vec<u8>,
    pub created_at: i64,
}

/// Turns a line of a log dated `date` into the row to store, or gives the
/// reason the line is skipped.
pub fn entry_row(date: LogDate, line: &[u8]) -> (r: Result<EntryRow, LineError>)
    requires
        date.wf(),
    ensures
        match line_meaning(line@) {
            Err(e) => r matches Err(f) && f == e,
            Ok(p) => r matches Ok(row) && row.user@ == p.user && row.kind == p.kind
                && row.body@ == p.body && row.created_at == civil_seconds(
                date.year as int,
                date.month as int,
                date.day as int,
                p.time.hour as int,
                p.time.minute as int,
                p.time.second as int,
            ),
        },
{
    match parse_line(line) {
        Err(e) => Err(e),
        Ok(p) => {
            let created_at = Timestamp::combine(date, p.time).unix_seconds();
            Ok(EntryRow { user: p.user, kind: p.kind, body: p.body, created_at })
        },
    }
}

} // verus!
