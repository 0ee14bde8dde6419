//! The normalised store: servers, channels and users, each unique by name, and
//! the entries that refer to them.
use vstd::prelude::*;
use crate::clock::{clock_of, date_of, parse_log_date, LogDate, Timestamp};
use crate::line::{find_byte, find_from, lemma_find_from, copy_range, line_meaning, parse_line, EntryKind, LineError};

verus! {

/// A table of unique names. The id of a name is its position plus one, so ids
/// start at 1 and follow the order of creation.
pub struct NameTable {
    names: Vec<Vec<u8>>,
}

impl View for NameTable {
    type V = Seq<Seq<u8>>;

    closed spec fn view(&self) -> Seq<Seq<u8>> {
        self.names@.map_values(|n: Vec<u8>| n@)
    }
}

pub open spec fn names_unique(t: Seq<Seq<u8>>) -> bool {
    forall|i: int, j: int| 0 <= i < j < t.len() ==> t[i] != t[j]
}

/// The first position at or after `i` that holds `n`.
pub open spec fn position(t: Seq<Seq<u8>>, n: Seq<u8>, i: int) -> Option<int>
    decreases t.len() - i,
{
    if i < 0 || i >= t.len() {
        None
    } else if t[i] == n {
        Some(i)
    } else {
        position(t, n, i + 1)
    }
}

/// The table after `n` is resolved in it, with the id of `n`: a name already
/// there keeps its row and id; a new name gets a new row at the end.
pub open spec fn resolve(t: Seq<Seq<u8>>, n: Seq<u8>) -> (Seq<Seq<u8>>, int) {
    match position(t, n, 0) {
        Some(i) => (t, i + 1),
        None => (t.push(n), t.len() as int + 1),
    }
}

proof fn lemma_position(t: Seq<Seq<u8>>, n: Seq<u8>, i: int)
    requires
        0 <= i,
    ensures
        position(t, n, i) matches Some(j) ==> i <= j < t.len() && t[j] == n,
        position(t, n, i) is None ==> forall|j: int| i <= j < t.len() ==> t[j] != n,
    decreases t.len() - i,
{
    if i < t.len() && t[i] != n {
        lemma_position(t, n, i + 1);
    }
}

proof fn lemma_position_pushed(t: Seq<Seq<u8>>, n: Seq<u8>, i: int)
    requires
        0 <= i <= t.len(),
        forall|j: int| i <= j < t.len() ==> t[j] != n,
    ensures
        position(t.push(n), n, i) == Some(t.len() as int),
    decreases t.len() - i,
{
    if i < t.len() {
        lemma_position_pushed(t, n, i + 1);
    }
}

/// What resolving keeps: the old rows stay as they were, at most one row is
/// added, the names stay unique, and the id points at the name.
pub proof fn lemma_resolve(t: Seq<Seq<u8>>, n: Seq<u8>)
    requires
        names_unique(t),
    ensures
        names_unique(resolve(t, n).0),
        t.len() <= resolve(t, n).0.len() <= t.len() + 1,
        forall|i: int| 0 <= i < t.len() ==> resolve(t, n).0[i] == t[i],
        1 <= resolve(t, n).1 <= resolve(t, n).0.len(),
        resolve(t, n).0[resolve(t, n).1 - 1] == n,
        t.contains(n) <==> resolve(t, n).0 == t,
{
    lemma_position(t, n, 0);
    if position(t, n, 0) is None {
        assert(!t.contains(n));
        assert(resolve(t, n).0.len() == t.len() + 1);
    }
}

/// Resolving a name twice gives the same id both times, and the second time
/// creates no row.
pub proof fn lemma_resolve_idempotent(t: Seq<Seq<u8>>, n: Seq<u8>)
    ensures
        resolve(resolve(t, n).0, n) == resolve(t, n),
{
    lemma_position(t, n, 0);
    if position(t, n, 0) is None {
        lemma_position_pushed(t, n, 0);
    }
}

/// Whether two byte strings are equal.
pub fn bytes_eq(a: &[u8], b: &[u8]) -> (r: bool)
    ensures
        r == (a@ == b@),
{
    if a.len() != b.len() {
        return false;
    }
    let mut i: usize = 0;
    while i < a.len()
        invariant
            i <= a@.len(),
            a@.len() == b@.len(),
            a@.subrange(0, i as int) == b@.subrange(0, i as int),
        decreases a@.len() - i,
    {
        if a[i] != b[i] {
            assert(a@[i as int] != b@[i as int]);
            return false;
        }
        assert(a@.subrange(0, i + 1) =~= a@.subrange(0, i as int).push(a@[i as int]));
        assert(b@.subrange(0, i + 1) =~= b@.subrange(0, i as int).push(b@[i as int]));
        i += 1;
    }
    assert(a@ =~= a@.subrange(0, i as int));
    assert(b@ =~= b@.subrange(0, i as int));
    true
}

impl NameTable {
    pub open spec fn wf(&self) -> bool {
        names_unique(self@)
    }

    pub fn new() -> (r: NameTable)
        ensures
            r@ == Seq::<Seq<u8>>::empty(),
            r.wf(),
    {
        let r = NameTable { names: Vec::new() };
        assert(r@ =~= Seq::<Seq<u8>>::empty());
        r
    }

    /// The number of rows.
    pub fn len(&self) -> (r: usize)
        ensures
            r == self@.len(),
    {
        self.names.len()
    }

    /// The name of the row with the given id.
    pub fn name(&self, id: i64) -> (r: Option<&Vec<u8>>)
        ensures
            match r {
                Some(v) => 1 <= id <= self@.len() && v@ == self@[id - 1],
                None => !(1 <= id <= self@.len()),
            },
    {
        if 1 <= id && (id as u64) <= (self.names.len() as u64) {
            Some(&self.names[(id - 1) as usize])
        } else {
            None
        }
    }

    /// The id of `name`, if it has a row.
    pub fn lookup(&self, name: &[u8]) -> (r: Option<i64>)
        requires
            self@.len() < i64::MAX,
        ensures
            r == (match position(self@, name@, 0) {
                Some(i) => Some((i + 1) as i64),
                None => None::<i64>,
            }),
    {
        let mut i: usize = 0;
        while i < self.names.len()
            invariant
                i <= self@.len(),
                self@.len() < i64::MAX,
                position(self@, name@, 0) == position(self@, name@, i as int),
            decreases self@.len() - i,
        {
            if bytes_eq(self.names[i].as_slice(), name) {
                return Some((i + 1) as i64);
            }
            i += 1;
        }
        None
    }

    /// The id of `name`, after a row is created for it if it had none.
    pub fn resolve_or_create(&mut self, name: &[u8]) -> (r: i64)
        requires
            old(self)@.len() < i64::MAX,
        ensures
            (final(self)@, r as int) == resolve(old(self)@, name@),
    {
        proof {
            lemma_position(self@, name@, 0);
        }
        match self.lookup(name) {
            Some(id) => id,
            None => {
                let ghost before = self@;
                let id = self.names.len() as i64 + 1;
                self.names.push(copy_range(name, 0, name.len()));
                assert(name@.subrange(0, name@.len() as int) =~= name@);
                assert(self@ =~= before.push(name@));
                id
            },
        }
    }
}

/// One stored log line.
#[derive(Debug)]
pub struct Entry {
    pub channel_id: i64,
    pub user_id: i64,
    pub kind: EntryKind,
    pub body: Vec<u8>,
    pub created_at: Timestamp,
}

pub struct EntryView {
    pub channel_id: i64,
    pub user_id: i64,
    pub kind: EntryKind,
    pub body: Seq<u8>,
    pub created_at: Timestamp,
}

impl View for Entry {
    type V = EntryView;

    open spec fn view(&self) -> EntryView {
        EntryView {
            channel_id: self.channel_id,
            user_id: self.user_id,
            kind: self.kind,
            body: self.body@,
            created_at: self.created_at,
        }
    }
}

/// The four tables. Channel `k` (id `k + 1`) belongs to the server whose id
/// is `channel_servers[k]`.
pub struct Catalog {
    servers: NameTable,
    channels: NameTable,
    channel_servers: Vec<i64>,
    users: NameTable,
    entries: Vec<Entry>,
}

pub struct CatalogView {
    pub servers: Seq<Seq<u8>>,
    pub channels: Seq<Seq<u8>>,
    pub channel_servers: Seq<i64>,
    pub users: Seq<Seq<u8>>,
    pub entries: Seq<EntryView>,
}

impl View for Catalog {
    type V = CatalogView;

    closed spec fn view(&self) -> CatalogView {
        CatalogView {
            servers: self.servers@,
            channels: self.channels@,
            channel_servers: self.channel_servers@,
            users: self.users@,
            entries: self.entries@.map_values(|e: Entry| e@),
        }
    }
}

impl CatalogView {
    /// Names are unique in each table, every channel refers to a server, and
    /// every entry to a channel and a user.
    pub open spec fn wf(self) -> bool {
        &&& names_unique(self.servers)
        &&& names_unique(self.channels)
        &&& names_unique(self.users)
        &&& self.channel_servers.len() == self.channels.len()
        &&& forall|k: int|
            0 <= k < self.channel_servers.len() ==> 1 <= #[trigger] self.channel_servers[k]
                <= self.servers.len()
        &&& forall|k: int|
            0 <= k < self.entries.len() ==> {
                let e = #[trigger] self.entries[k];
                &&& 1 <= e.channel_id <= self.channels.len()
                &&& 1 <= e.user_id <= self.users.len()
                &&& e.created_at.wf()
            }
    }
}

/// The channel and server that a directory name `<channel>@<server>` names,
/// split at the first `@`.
pub open spec fn channel_dir_parts(d: Seq<u8>) -> Option<(Seq<u8>, Seq<u8>)> {
    match find_from(d, 64, 0) {
        None => None,
        Some(a) => Some((d.subrange(0, a), d.subrange(a + 1, d.len() as int))),
    }
}

/// The catalog after a channel directory is entered, with the channel's id: its
/// server is resolved, then the channel, which a new row links to that server.
pub open spec fn enter_dir_meaning(v: CatalogView, d: Seq<u8>) -> (CatalogView, Option<int>) {
    match channel_dir_parts(d) {
        None => (v, None),
        Some((ch, srv)) => {
            let (servers, sid) = resolve(v.servers, srv);
            let (channels, cid) = resolve(v.channels, ch);
            let channel_servers = if channels.len() > v.channels.len() {
                v.channel_servers.push(sid as i64)
            } else {
                v.channel_servers
            };
            (CatalogView { servers, channels, channel_servers, ..v }, Some(cid))
        },
    }
}

/// The catalog after one line of a log of channel `ch` dated `date`: a line
/// that the grammar refuses changes nothing; another resolves its user and adds
/// one entry.
pub open spec fn import_line_meaning(
    v: CatalogView,
    ch: i64,
    date: LogDate,
    line: Seq<u8>,
) -> CatalogView {
    match line_meaning(line) {
        Err(_) => v,
        Ok(p) => {
            let (users, uid) = resolve(v.users, p.user);
            CatalogView {
                users,
                entries: v.entries.push(
                    EntryView {
                        channel_id: ch,
                        user_id: uid as i64,
                        kind: p.kind,
                        body: p.body,
                        created_at: Timestamp { date, time: p.time },
                    },
                ),
                ..v
            }
        },
    }
}

/// The catalog after the lines, in order.
pub open spec fn import_lines_meaning(
    v: CatalogView,
    ch: i64,
    date: LogDate,
    lines: Seq<Seq<u8>>,
) -> CatalogView
    decreases lines.len(),
{
    if lines.len() == 0 {
        v
    } else {
        import_line_meaning(
            import_lines_meaning(v, ch, date, lines.drop_last()),
            ch,
            date,
            lines.last(),
        )
    }
}

/// Entering the same channel directory twice gives the same channel id both
/// times, and the second time creates no server or channel row.
pub proof fn lemma_enter_dir_idempotent(v: CatalogView, d: Seq<u8>)
    ensures
        enter_dir_meaning(enter_dir_meaning(v, d).0, d) == enter_dir_meaning(v, d),
{
    if let Some((ch, srv)) = channel_dir_parts(d) {
        lemma_resolve_idempotent(v.servers, srv);
        lemma_resolve_idempotent(v.channels, ch);
    }
}

/// An entry filed from a line carries the log's date and the line's own time
/// of day, and a line too short to hold a time leaves the catalog as it was.
pub proof fn lemma_entry_timestamp(v: CatalogView, ch: i64, date: LogDate, line: Seq<u8>)
    ensures
        line.len() < 10 ==> import_line_meaning(v, ch, date, line) == v,
        line_meaning(line) is Ok ==> {
            let e = import_line_meaning(v, ch, date, line).entries.last();
            &&& clock_of(line.subrange(0, 8)) is Some
            &&& e.created_at.date == date
            &&& e.created_at.time == clock_of(line.subrange(0, 8))->0
        },
{
}

/// The lines of a log that are at least ten bytes long, in order.
pub open spec fn long_lines(lines: Seq<Seq<u8>>) -> Seq<Seq<u8>>
    decreases lines.len(),
{
    if lines.len() == 0 {
        lines
    } else {
        let kept = long_lines(lines.drop_last());
        if lines.last().len() >= 10 {
            kept.push(lines.last())
        } else {
            kept
        }
    }
}

/// Lines shorter than ten bytes leave no trace: a log gives the same catalog
/// as the same log with those lines removed.
pub proof fn lemma_short_lines_leave_no_trace(
    v: CatalogView,
    ch: i64,
    date: LogDate,
    lines: Seq<Seq<u8>>,
)
    ensures
        import_lines_meaning(v, ch, date, lines) == import_lines_meaning(
            v,
            ch,
            date,
            long_lines(lines),
        ),
    decreases lines.len(),
{
    if lines.len() > 0 {
        lemma_short_lines_leave_no_trace(v, ch, date, lines.drop_last());
        let kept = long_lines(lines.drop_last());
        let l = lines.last();
        if l.len() >= 10 {
            assert(kept.push(l).drop_last() =~= kept);
        }
    }
}

/// An accepted line files its entry under its speaker's row: a speaker who has
/// a row keeps it and no row is added; a new speaker gets exactly one row.
pub proof fn lemma_line_user(v: CatalogView, ch: i64, date: LogDate, line: Seq<u8>)
    requires
        names_unique(v.users),
        v.users.len() < i64::MAX,
    ensures
        line_meaning(line) matches Ok(p) ==> {
            let w = import_line_meaning(v, ch, date, line);
            &&& names_unique(w.users)
            &&& w.users[w.entries.last().user_id - 1] == p.user
            &&& v.users.contains(p.user) ==> w.users == v.users
            &&& !v.users.contains(p.user) ==> w.users == v.users.push(p.user)
        },
{
    if let Ok(p) = line_meaning(line) {
        lemma_resolve(v.users, p.user);
        lemma_position(v.users, p.user, 0);
        if !v.users.contains(p.user) {
            if let Some(i) = position(v.users, p.user, 0) {
                assert(v.users[i] == p.user);
            }
        }
    }
}

proof fn lemma_resolve_contains(t: Seq<Seq<u8>>, n: Seq<u8>)
    ensures
        resolve(t, n).0.contains(n),
        t.contains(n) ==> resolve(t, n).0 == t,
        forall|m: Seq<u8>| t.contains(m) ==> #[trigger] resolve(t, n).0.contains(m),
{
    lemma_position(t, n, 0);
    if let Some(i) = position(t, n, 0) {
        assert(t[i] == n);
    } else {
        assert(t.push(n)[t.len() as int] == n);
        assert forall|m: Seq<u8>| t.contains(m) implies #[trigger] t.push(n).contains(m) by {
            let k = choose|k: int| 0 <= k < t.len() && t[k] == m;
            assert(t.push(n)[k] == m);
        }
    }
}

/// After a log is imported, the speaker of every accepted line has a row, and
/// every name that had a row still has one.
proof fn lemma_import_keeps_speakers(v: CatalogView, ch: i64, date: LogDate, lines: Seq<Seq<u8>>)
    ensures
        forall|m: Seq<u8>|
            v.users.contains(m) ==> #[trigger] import_lines_meaning(v, ch, date, lines).users.contains(m),
        forall|i: int|
            0 <= i < lines.len() ==> (line_meaning(#[trigger] lines[i]) matches Ok(p)
                ==> import_lines_meaning(v, ch, date, lines).users.contains(p.user)),
    decreases lines.len(),
{
    if lines.len() > 0 {
        let rest = lines.drop_last();
        lemma_import_keeps_speakers(v, ch, date, rest);
        let u = import_lines_meaning(v, ch, date, rest);
        if let Ok(p) = line_meaning(lines.last()) {
            lemma_resolve_contains(u.users, p.user);
        }
        assert forall|i: int| 0 <= i < lines.len() implies (line_meaning(#[trigger] lines[i]) matches Ok(
            p,
        ) ==> import_lines_meaning(v, ch, date, lines).users.contains(p.user)) by {
            if i < lines.len() - 1 {
                assert(lines[i] == rest[i]);
            }
        }
    }
}

/// A log whose accepted lines all have speakers with rows adds no user row.
proof fn lemma_known_speakers_add_no_users(
    u: CatalogView,
    ch: i64,
    date: LogDate,
    lines: Seq<Seq<u8>>,
)
    requires
        forall|i: int|
            0 <= i < lines.len() ==> (line_meaning(#[trigger] lines[i]) matches Ok(p)
                ==> u.users.contains(p.user)),
    ensures
        import_lines_meaning(u, ch, date, lines).users == u.users,
    decreases lines.len(),
{
    if lines.len() > 0 {
        let rest = lines.drop_last();
        assert forall|i: int| 0 <= i < rest.len() implies (line_meaning(#[trigger] rest[i]) matches Ok(
            p,
        ) ==> u.users.contains(p.user)) by {
            assert(rest[i] == lines[i]);
        }
        lemma_known_speakers_add_no_users(u, ch, date, rest);
        if let Ok(p) = line_meaning(lines.last()) {
            assert(lines.last() == lines[lines.len() - 1]);
            lemma_resolve_contains(u.users, p.user);
        }
    }
}

/// A log touches neither servers nor channels.
pub proof fn lemma_import_keeps_channels(v: CatalogView, ch: i64, date: LogDate, lines: Seq<Seq<u8>>)
    ensures
        import_lines_meaning(v, ch, date, lines).servers == v.servers,
        import_lines_meaning(v, ch, date, lines).channels == v.channels,
        import_lines_meaning(v, ch, date, lines).channel_servers == v.channel_servers,
    decreases lines.len(),
{
    if lines.len() > 0 {
        lemma_import_keeps_channels(v, ch, date, lines.drop_last());
    }
}

/// Importing the same log a second time creates no server, channel or user
/// row: every speaker already has one. Only entries are added again.
pub proof fn lemma_reimport_adds_no_rows(v: CatalogView, ch: i64, date: LogDate, lines: Seq<Seq<u8>>)
    ensures
        ({
            let w = import_lines_meaning(v, ch, date, lines);
            let w2 = import_lines_meaning(w, ch, date, lines);
            &&& w2.users == w.users
            &&& w2.servers == w.servers
            &&& w2.channels == w.channels
            &&& w2.channel_servers == w.channel_servers
        }),
{
    lemma_import_keeps_channels(import_lines_meaning(v, ch, date, lines), ch, date, lines);
    lemma_import_keeps_speakers(v, ch, date, lines);
    lemma_known_speakers_add_no_users(import_lines_meaning(v, ch, date, lines), ch, date, lines);
}

/// Splits a directory name `<channel>@<server>` at its first `@`.
pub fn split_channel_dir(d: &[u8]) -> (r: Option<(Vec<u8>, Vec<u8>)>)
    ensures
        match r {
            Some((ch, srv)) => channel_dir_parts(d@) == Some((ch@, srv@)),
            None => channel_dir_parts(d@) is None,
        },
        r is None <==> !d@.contains(64u8),
{
    proof {
        lemma_find_from(d@, 64u8, 0);
    }
    let n = d.len();
    match find_byte(d, 64u8, 0) {
        None => None,
        Some(a) => {
            proof {
                assert(find_from(d@, 64u8, 0) == Some(a as int));
                assert(a < d@.len() && d@[a as int] == 64u8);
            }
            Some((copy_range(d, 0, a), copy_range(d, a + 1, n)))
        },
    }
}

impl Catalog {
    pub open spec fn wf(&self) -> bool {
        self@.wf()
    }

    /// An empty catalog.
    pub fn new() -> (r: Catalog)
        ensures
            r.wf(),
            r@.servers.len() == 0,
            r@.channels.len() == 0,
            r@.users.len() == 0,
            r@.entries.len() == 0,
    {
        let r = Catalog {
            servers: NameTable::new(),
            channels: NameTable::new(),
            channel_servers: Vec::new(),
            users: NameTable::new(),
            entries: Vec::new(),
        };
        assert(r@.entries =~= Seq::<EntryView>::empty());
        r
    }

    pub fn servers(&self) -> (r: &NameTable)
        ensures
            r@ == self@.servers,
    {
        &self.servers
    }

    pub fn channels(&self) -> (r: &NameTable)
        ensures
            r@ == self@.channels,
    {
        &self.channels
    }

    pub fn users(&self) -> (r: &NameTable)
        ensures
            r@ == self@.users,
    {
        &self.users
    }

    pub fn entries(&self) -> (r: &Vec<Entry>)
        ensures
            r@.map_values(|e: Entry| e@) == self@.entries,
    {
        &self.entries
    }

    /// The id of the server that the channel with id `channel_id` belongs to.
    pub fn channel_server(&self, channel_id: i64) -> (r: Option<i64>)
        requires
            self.wf(),
        ensures
            match r {
                Some(s) => 1 <= channel_id <= self@.channels.len() && s == self@.channel_servers[channel_id - 1],
                None => !(1 <= channel_id <= self@.channels.len()),
            },
    {
        if 1 <= channel_id && (channel_id as u64) <= (self.channel_servers.len() as u64) {
            Some(self.channel_servers[(channel_id - 1) as usize])
        } else {
            None
        }
    }

    /// Enters a directory named `<channel>@<server>`: resolves or creates the
    /// server, then the channel, and gives the channel's id. A name without `@`
    /// is skipped and changes nothing.
    pub fn enter_channel_dir(&mut self, d: &[u8]) -> (r: Option<i64>)
        requires
            old(self).wf(),
            old(self)@.servers.len() < i64::MAX,
            old(self)@.channels.len() < i64::MAX,
        ensures
            final(self).wf(),
            (final(self)@, (match r {
                Some(c) => Some(c as int),
                None => None::<int>,
            })) == enter_dir_meaning(old(self)@, d@),
            r is None <==> !d@.contains(64u8),
            r is None ==> final(self)@ == old(self)@,
    {
        match split_channel_dir(d) {
            None => None,
            Some((ch, srv)) => {
                let ghost v = self@;
                proof {
                    lemma_resolve(v.servers, srv@);
                    lemma_resolve(v.channels, ch@);
                }
                let sid = self.servers.resolve_or_create(srv.as_slice());
                let before = self.channels.len();
                let cid = self.channels.resolve_or_create(ch.as_slice());
                if self.channels.len() > before {
                    self.channel_servers.push(sid);
                }
                proof {
                    assert(self@.entries == v.entries);
                    assert forall|k: int| 0 <= k < self@.channel_servers.len() implies 1
                        <= #[trigger] self@.channel_servers[k] <= self@.servers.len() by {
                        if k < v.channel_servers.len() {
                            assert(self@.channel_servers[k] == v.channel_servers[k]);
                        }
                    }
                }
                Some(cid)
            },
        }
    }

    /// Files one line of a log of channel `channel_id` dated `date`. A line that
    /// the grammar refuses is skipped, changes nothing, and gives the reason;
    /// another resolves or creates its user and adds one entry.
    pub fn import_line(&mut self, channel_id: i64, date: LogDate, line: &[u8]) -> (r: Result<
        (),
        LineError,
    >)
        requires
            old(self).wf(),
            1 <= channel_id <= old(self)@.channels.len(),
            date.wf(),
            old(self)@.users.len() < i64::MAX,
        ensures
            final(self).wf(),
            final(self)@ == import_line_meaning(old(self)@, channel_id, date, line@),
            match r {
                Ok(()) => line_meaning(line@) is Ok,
                Err(e) => line_meaning(line@) == Err::<crate::line::LineView, LineError>(e),
            },
            line@.len() < 10 ==> final(self)@ == old(self)@,
    {
        match parse_line(line) {
            Err(e) => Err(e),
            Ok(p) => {
                let ghost v = self@;
                proof {
                    lemma_resolve(v.users, p.user@);
                }
                let uid = self.users.resolve_or_create(p.user.as_slice());
                let e = Entry {
                    channel_id,
                    user_id: uid,
                    kind: p.kind,
                    body: p.body,
                    created_at: Timestamp::combine(date, p.time),
                };
                self.entries.push(e);
                proof {
                    assert(self@.entries =~= v.entries.push(e@));
                }
                Ok(())
            },
        }
    }

    /// Files the lines of one log of channel `channel_id`, whose file stem
    /// `stem` gives the date. Gives false, and changes nothing, when the stem
    /// holds no date.
    pub fn import_log(&mut self, channel_id: i64, stem: &[u8], lines: &Vec<Vec<u8>>) -> (r: bool)
        requires
            old(self).wf(),
            1 <= channel_id <= old(self)@.channels.len(),
            old(self)@.users.len() + lines@.len() < i64::MAX,
        ensures
            final(self).wf(),
            r == date_of(stem@) is Some,
            match date_of(stem@) {
                None => final(self)@ == old(self)@,
                Some(date) => final(self)@ == import_lines_meaning(
                    old(self)@,
                    channel_id,
                    date,
                    lines@.map_values(|l: Vec<u8>| l@),
                ),
            },
    {
        let date = match parse_log_date(stem) {
            None => return false,
            Some(d) => d,
        };
        let ghost v = self@;
        let ghost all = lines@.map_values(|l: Vec<u8>| l@);
        let mut i: usize = 0;
        while i < lines.len()
            invariant
                i <= lines@.len(),
                all == lines@.map_values(|l: Vec<u8>| l@),
                self.wf(),
                date.wf(),
                self@.channels == v.channels,
                1 <= channel_id <= v.channels.len(),
                self@.users.len() <= v.users.len() + i,
                v.users.len() + lines@.len() < i64::MAX,
                self@ == import_lines_meaning(v, channel_id, date, all.subrange(0, i as int)),
            decreases lines@.len() - i,
        {
            let _ = self.import_line(channel_id, date, lines[i].as_slice());
            proof {
                assert(all.subrange(0, i + 1).drop_last() =~= all.subrange(0, i as int));
                assert(all.subrange(0, i + 1).last() == lines@[i as int]@);
            }
            i += 1;
        }
        proof {
            assert(all.subrange(0, i as int) =~= all);
        }
        true
    }
}

} // verus!
