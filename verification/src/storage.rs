use core::cmp::Ordering;
use vstd::prelude::*;

verus! {

/// What a log entry holds, as mathematical values.
pub struct EntryView {
    pub index: u64,
    pub term: u64,
    pub command: Seq<u8>,
}

/// One entry of the replicated log: its position, the term in which the leader
/// created it, and the opaque command it carries.
#[derive(Debug, Clone)]
pub struct LogEntry {
    index: u64,
    term: u64,
    command: Vec<u8>,
}

impl View for LogEntry {
    type V = EntryView;

    closed spec fn view(&self) -> EntryView {
        EntryView { index: self.index, term: self.term, command: self.command@ }
    }
}

impl LogEntry {
    pub fn new(index: u64, term: u64, command: Vec<u8>) -> (entry: Self)
        ensures
            entry@ == (EntryView { index, term, command: command@ }),
    {
        Self { index, term, command }
    }

    pub fn index(&self) -> (index: u64)
        ensures
            index == self@.index,
    {
        self.index
    }

    pub fn term(&self) -> (term: u64)
        ensures
            term == self@.term,
    {
        self.term
    }

    pub fn command(&self) -> (command: &[u8])
        ensures
            command@ == self@.command,
    {
        self.command.as_slice()
    }

    /// A copy of this entry with the same index, term and command.
    pub fn duplicate(&self) -> (copy: Self)
        ensures
            copy@ == self@,
    {
        let command = self.command.clone();
        assert(command@ =~= self.command@);
        Self { index: self.index, term: self.term, command }
    }
}

impl PartialEq for LogEntry {
    /// Two entries are equal when they have the same index and the same term.
    fn eq(&self, other: &Self) -> (equal: bool) {
        self.index == other.index && self.term == other.term
    }
}

impl vstd::std_specs::cmp::PartialEqSpecImpl for LogEntry {
    open spec fn obeys_eq_spec() -> bool {
        true
    }

    open spec fn eq_spec(&self, other: &Self) -> bool {
        self@.index == other@.index && self@.term == other@.term
    }
}

impl Eq for LogEntry {
}

/// Entries are ordered by their index alone.
pub open spec fn order_by_index(a: u64, b: u64) -> Ordering {
    if a < b {
        Ordering::Less
    } else if a == b {
        Ordering::Equal
    } else {
        Ordering::Greater
    }
}

impl PartialOrd for LogEntry {
    fn partial_cmp(&self, other: &Self) -> (order: Option<Ordering>) {
        if self.index < other.index {
            Some(Ordering::Less)
        } else if self.index == other.index {
            Some(Ordering::Equal)
        } else {
            Some(Ordering::Greater)
        }
    }
}

impl vstd::std_specs::cmp::PartialOrdSpecImpl for LogEntry {
    open spec fn obeys_partial_cmp_spec() -> bool {
        true
    }

    open spec fn partial_cmp_spec(&self, other: &Self) -> Option<Ordering> {
        Some(order_by_index(self@.index, other@.index))
    }
}

/// The index and the term of the last entry of a log (both 0 for an empty log).
#[derive(Debug)]
pub struct LogsInformation {
    last_log_index: u64,
    last_log_term: u64,
}

impl View for LogsInformation {
    /// `(last_log_index, last_log_term)`
    type V = (u64, u64);

    closed spec fn view(&self) -> (u64, u64) {
        (self.last_log_index, self.last_log_term)
    }
}

impl LogsInformation {
    pub fn new(last_log_index: u64, last_log_term: u64) -> (info: Self)
        ensures
            info@ == (last_log_index, last_log_term),
    {
        Self { last_log_index, last_log_term }
    }

    pub fn last_log_index(&self) -> (index: u64)
        ensures
            index == self@.0,
    {
        self.last_log_index
    }

    pub fn last_log_term(&self) -> (term: u64)
        ensures
            term == self@.1,
    {
        self.last_log_term
    }
}

impl Default for LogsInformation {
    fn default() -> (info: Self)
        ensures
            info@ == (0u64, 0u64),
    {
        Self { last_log_index: 0, last_log_term: 0 }
    }
}

/// The entries of a log, as mathematical values.
pub open spec fn entries_view(entries: Seq<LogEntry>) -> Seq<EntryView> {
    entries.map_values(|e: LogEntry| e@)
}

/// `(index, term)` of the last entry of `log`, or `(0, 0)` when `log` is empty.
pub open spec fn last_log_info_of(log: Seq<EntryView>) -> (u64, u64) {
    if log.len() == 0 {
        (0, 0)
    } else {
        (log.last().index, log.last().term)
    }
}

/// Whether `log` has an entry at position `prev_log_index` with term `prev_log_term`;
/// an empty log matches the position 0 whatever the term.
pub open spec fn previous_entry_matches(log: Seq<EntryView>, prev_log_index: int, prev_log_term: u64) -> bool {
    ||| (prev_log_index == 0 && log.len() == 0)
    ||| (0 <= prev_log_index < log.len() && log[prev_log_index].term == prev_log_term)
}

/// The log after receiving one entry: an entry already present at the entry's index
/// with the same term is kept; one with another term is dropped together with all
/// that follow it, and the new entry takes its place; an index past the end appends.
pub open spec fn merge_entry(log: Seq<EntryView>, entry: EntryView) -> Seq<EntryView> {
    if entry.index < log.len() {
        if log[entry.index as int].term != entry.term {
            log.take(entry.index as int).push(entry)
        } else {
            log
        }
    } else {
        log.push(entry)
    }
}

/// The log after receiving `entries` one after the other.
pub open spec fn merge_entries(log: Seq<EntryView>, entries: Seq<EntryView>) -> Seq<EntryView>
    decreases entries.len(),
{
    if entries.len() == 0 {
        log
    } else {
        merge_entry(merge_entries(log, entries.drop_last()), entries.last())
    }
}

/// Every entry of `log` sits at the position given by its index.
pub open spec fn well_indexed(log: Seq<EntryView>) -> bool {
    forall|i: int| 0 <= i < log.len() ==> #[trigger] log[i].index == i
}

/// The entries carry the consecutive indices `start`, `start + 1`, ...
pub open spec fn consecutive_from(entries: Seq<EntryView>, start: int) -> bool {
    forall|k: int| 0 <= k < entries.len() ==> #[trigger] entries[k].index == start + k
}

/// Every entry already sits in `log` at its index with its term.
pub open spec fn already_present(log: Seq<EntryView>, entries: Seq<EntryView>) -> bool {
    forall|k: int|
        0 <= k < entries.len() ==> (#[trigger] entries[k]).index < log.len()
            && log[entries[k].index as int].term == entries[k].term
}

/// Merging entries that the log already holds (same index, same term) leaves the
/// log as it was.
pub proof fn lemma_merge_present_entries_is_noop(log: Seq<EntryView>, entries: Seq<EntryView>)
    requires
        already_present(log, entries),
    ensures
        merge_entries(log, entries) == log,
    decreases entries.len(),
{
    if entries.len() > 0 {
        let init = entries.drop_last();
        assert forall|k: int| 0 <= k < init.len() implies (#[trigger] init[k]).index < log.len()
            && log[init[k].index as int].term == init[k].term by {
            assert(init[k] == entries[k]);
        }
        lemma_merge_present_entries_is_noop(log, init);
        assert(entries.last() == entries[entries.len() - 1]);
    }
}

/// When the log is well indexed and the leader sends entries with consecutive
/// indices starting at or before the end of the log, the merged log is well indexed,
/// keeps every entry before `start`, and holds each new entry's term at its index.
pub proof fn lemma_merge_places_entries(log: Seq<EntryView>, entries: Seq<EntryView>, start: int)
    requires
        well_indexed(log),
        consecutive_from(entries, start),
        0 <= start <= log.len(),
    ensures
        well_indexed(merge_entries(log, entries)),
        merge_entries(log, entries).len() >= start + entries.len(),
        forall|i: int| 0 <= i < start ==> #[trigger] merge_entries(log, entries)[i] == log[i],
        forall|k: int|
            0 <= k < entries.len() ==> #[trigger] merge_entries(log, entries)[start + k].term
                == entries[k].term,
    decreases entries.len(),
{
    if entries.len() > 0 {
        let init = entries.drop_last();
        assert forall|k: int| 0 <= k < init.len() implies #[trigger] init[k].index == start + k by {
            assert(init[k] == entries[k]);
        }
        lemma_merge_places_entries(log, init, start);
        let prev = merge_entries(log, init);
        let e = entries.last();
        assert(e == entries[entries.len() - 1]);
        let r = merge_entries(log, entries);
        assert(r == merge_entry(prev, e));
        assert forall|k: int| 0 <= k < entries.len() implies #[trigger] r[start + k].term
            == entries[k].term by {
            if k < entries.len() - 1 {
                assert(init[k] == entries[k]);
                assert(prev[start + k].term == init[k].term);
            }
        }
    }
}

/// Delivering the same well-formed batch of entries twice gives the log that one
/// delivery gives.
pub proof fn lemma_merge_idempotent(log: Seq<EntryView>, entries: Seq<EntryView>, start: int)
    requires
        well_indexed(log),
        consecutive_from(entries, start),
        0 <= start <= log.len(),
    ensures
        merge_entries(merge_entries(log, entries), entries) == merge_entries(log, entries),
{
    let once = merge_entries(log, entries);
    lemma_merge_places_entries(log, entries, start);
    assert forall|k: int| 0 <= k < entries.len() implies (#[trigger] entries[k]).index < once.len()
        && once[entries[k].index as int].term == entries[k].term by {
        assert(once[start + k].term == entries[k].term);
    }
    lemma_merge_present_entries_is_noop(once, entries);
}

/// The `j`-th of the entries sent from `start` falls on an entry of the log with
/// another term.
pub open spec fn conflicts_at(log: Seq<EntryView>, entries: Seq<EntryView>, start: int, j: int) -> bool {
    &&& 0 <= j < entries.len()
    &&& start + j < log.len()
    &&& log[start + j].term != entries[j].term
}

/// None of the first `j` entries sent from `start` conflicts with the log.
pub open spec fn agrees_before(log: Seq<EntryView>, entries: Seq<EntryView>, start: int, j: int) -> bool {
    forall|i: int| 0 <= i < j ==> !#[trigger] conflicts_at(log, entries, start, i)
}

proof fn lemma_merge_without_conflict(log: Seq<EntryView>, entries: Seq<EntryView>, start: int)
    requires
        consecutive_from(entries, start),
        0 <= start <= log.len(),
        agrees_before(log, entries, start, entries.len() as int),
    ensures
        merge_entries(log, entries) == log + entries.subrange(
            if entries.len() <= log.len() - start { entries.len() as int } else { log.len() - start },
            entries.len() as int,
        ),
    decreases entries.len(),
{
    let n = entries.len() as int;
    let room = log.len() - start;
    if n == 0 {
        assert(log + entries.subrange(0, 0) =~= log);
    } else {
        let init = entries.drop_last();
        assert forall|k: int| 0 <= k < init.len() implies #[trigger] init[k].index == start + k by {
            assert(init[k] == entries[k]);
        }
        assert forall|i: int| 0 <= i < n - 1 implies !#[trigger] conflicts_at(log, init, start, i) by {
            assert(init[i] == entries[i]);
            assert(!conflicts_at(log, entries, start, i));
        }
        lemma_merge_without_conflict(log, init, start);
        let prev = merge_entries(log, init);
        let e = entries.last();
        assert(e == entries[n - 1]);
        assert(merge_entries(log, entries) == merge_entry(prev, e));
        if start + n - 1 < log.len() {
            assert(prev =~= log + init.subrange(n - 1, n - 1));
            assert(prev =~= log);
            assert(!conflicts_at(log, entries, start, n - 1));
            assert(log + entries.subrange(n, n) =~= log);
        } else {
            assert(init.subrange(room, n - 1) =~= entries.subrange(room, n - 1));
            assert(prev.len() == start + n - 1);
            assert((log + entries.subrange(room, n - 1)).push(e) =~= log + entries.subrange(room, n));
        }
    }
}

proof fn lemma_merge_with_conflict(log: Seq<EntryView>, entries: Seq<EntryView>, start: int, j: int)
    requires
        consecutive_from(entries, start),
        0 <= start <= log.len(),
        conflicts_at(log, entries, start, j),
        agrees_before(log, entries, start, j),
    ensures
        merge_entries(log, entries) == log.take(start + j) + entries.subrange(j, entries.len() as int),
    decreases entries.len(),
{
    let n = entries.len() as int;
    let init = entries.drop_last();
    assert forall|k: int| 0 <= k < init.len() implies #[trigger] init[k].index == start + k by {
        assert(init[k] == entries[k]);
    }
    let prev = merge_entries(log, init);
    let e = entries.last();
    assert(e == entries[n - 1]);
    assert(merge_entries(log, entries) == merge_entry(prev, e));
    if n - 1 == j {
        assert forall|i: int| 0 <= i < n - 1 implies !#[trigger] conflicts_at(log, init, start, i) by {
            assert(init[i] == entries[i]);
            assert(!conflicts_at(log, entries, start, i));
        }
        lemma_merge_without_conflict(log, init, start);
        assert(prev =~= log + init.subrange(j, j));
        assert(prev =~= log);
        assert(log.take(start + j).push(e) =~= log.take(start + j) + entries.subrange(j, n));
    } else {
        assert(init[j] == entries[j]);
        assert forall|i: int| 0 <= i < j implies !#[trigger] conflicts_at(log, init, start, i) by {
            assert(init[i] == entries[i]);
            assert(!conflicts_at(log, entries, start, i));
        }
        lemma_merge_with_conflict(log, init, start, j);
        assert(init.subrange(j, n - 1) =~= entries.subrange(j, n - 1));
        assert(prev.len() == start + n - 1);
        assert((log.take(start + j) + entries.subrange(j, n - 1)).push(e) =~= log.take(start + j)
            + entries.subrange(j, n));
    }
}

/// Merging entries with consecutive indices from `start` (at most the log's length)
/// cuts the log at the first entry that conflicts with the log and appends the new
/// entries from there on; without a conflict it keeps the log and appends the new
/// entries that lie past its end.
pub proof fn lemma_merge_closed_form(log: Seq<EntryView>, entries: Seq<EntryView>, start: int)
    requires
        consecutive_from(entries, start),
        0 <= start <= log.len(),
    ensures
        forall|j: int|
            #![trigger conflicts_at(log, entries, start, j)]
            conflicts_at(log, entries, start, j) && agrees_before(log, entries, start, j)
                ==> merge_entries(log, entries) == log.take(start + j) + entries.subrange(
                j,
                entries.len() as int,
            ),
        agrees_before(log, entries, start, entries.len() as int) ==> merge_entries(log, entries)
            == log + entries.subrange(
            if entries.len() <= log.len() - start { entries.len() as int } else { log.len() - start },
            entries.len() as int,
        ),
{
    assert forall|j: int|
        #![trigger conflicts_at(log, entries, start, j)]
        conflicts_at(log, entries, start, j) && agrees_before(log, entries, start, j)
            implies merge_entries(log, entries) == log.take(start + j) + entries.subrange(
            j,
            entries.len() as int,
        ) by {
        lemma_merge_with_conflict(log, entries, start, j);
    }
    if agrees_before(log, entries, start, entries.len() as int) {
        lemma_merge_without_conflict(log, entries, start);
    }
}

/// The log after the leader appends a new command in `term`: its index follows the
/// last one (0 for an empty log).
pub open spec fn append_command(log: Seq<EntryView>, term: u64, command: Seq<u8>) -> Seq<EntryView> {
    let index: u64 = if log.len() == 0 { 0 } else { (log.last().index + 1) as u64 };
    log.push(EntryView { index, term, command })
}

/// A command appended by the leader to a well-indexed log lands at the position
/// given by its index, right after the last entry.
pub proof fn lemma_append_command_well_indexed(log: Seq<EntryView>, term: u64, command: Seq<u8>)
    requires
        well_indexed(log),
        log.len() > 0 ==> log.last().index < u64::MAX,
    ensures
        well_indexed(append_command(log, term, command)),
        append_command(log, term, command).last().index == log.len(),
        append_command(log, term, command).drop_last() == log,
{
    let r = append_command(log, term, command);
    if log.len() > 0 {
        assert(log[log.len() - 1].index == log.len() - 1);
    }
    assert(r.drop_last() =~= log);
    assert forall|i: int| 0 <= i < r.len() implies #[trigger] r[i].index == i by {
        if i < log.len() {
            assert(r[i] == log[i]);
        }
    }
}

/// The preceding-entry check holds exactly when the log has an entry at
/// `prev_log_index` whose term is `prev_log_term`, or the log is empty and the
/// position is 0.
pub proof fn lemma_previous_entry_match_is_exact(log: Seq<EntryView>, prev_log_index: int, prev_log_term: u64)
    ensures
        previous_entry_matches(log, prev_log_index, prev_log_term) <==> ((prev_log_index == 0
            && log.len() == 0) || (0 <= prev_log_index < log.len() && log[prev_log_index].term
            == prev_log_term)),
        previous_entry_matches(log, prev_log_index, prev_log_term) && 0 <= prev_log_index < log.len()
            ==> log[prev_log_index].term == prev_log_term,
{
}

/// Appending a command in `term` keeps the log and adds one entry at its end, which
/// carries `term` and the command, whatever the log held before.
pub proof fn lemma_append_command_entry(log: Seq<EntryView>, term: u64, command: Seq<u8>)
    ensures
        append_command(log, term, command).len() == log.len() + 1,
        append_command(log, term, command).last().term == term,
        append_command(log, term, command).last().command == command,
        forall|i: int| 0 <= i < log.len() ==> #[trigger] append_command(log, term, command)[i] == log[i],
{
}

/// The replicated log of a node.
#[derive(Debug)]
pub struct LogEntries(Vec<LogEntry>);

impl View for LogEntries {
    type V = Seq<EntryView>;

    closed spec fn view(&self) -> Seq<EntryView> {
        entries_view(self.0@)
    }
}

impl Default for LogEntries {
    fn default() -> (log: Self)
        ensures
            log@ == Seq::<EntryView>::empty(),
    {
        let log = LogEntries(Vec::new());
        assert(log@ =~= Seq::<EntryView>::empty());
        log
    }
}

impl core::ops::Deref for LogEntries {
    type Target = Vec<LogEntry>;

    fn deref(&self) -> (entries: &Vec<LogEntry>)
        ensures
            entries_view(entries@) == self@,
    {
        &self.0
    }
}

impl LogEntries {
    /// The log holding `entries` in this order.
    pub fn new(entries: Vec<LogEntry>) -> (log: Self)
        ensures
            log@ == entries_view(entries@),
    {
        LogEntries(entries)
    }

    pub fn len(&self) -> (len: usize)
        ensures
            len == self@.len(),
    {
        self.0.len()
    }

    pub fn is_empty(&self) -> (empty: bool)
        ensures
            empty == (self@.len() == 0),
    {
        self.0.len() == 0
    }

    /// The entry at position `i`, if there is one.
    pub fn get(&self, i: usize) -> (entry: Option<&LogEntry>)
        ensures
            i < self@.len() ==> entry.is_some() && entry.unwrap()@ == self@[i as int],
            i >= self@.len() ==> entry.is_none(),
    {
        if i < self.0.len() {
            Some(&self.0[i])
        } else {
            None
        }
    }

    /// The last `N` entries, in order, or none if the log holds fewer than `N`.
    pub fn last_entries<const N: usize>(&self) -> (entries: Vec<LogEntry>)
        ensures
            self@.len() >= N ==> entries_view(entries@) == self@.subrange(self@.len() - N, self@.len() as int),
            self@.len() < N ==> entries@.len() == 0,
    {
        let len = self.0.len();
        let mut entries: Vec<LogEntry> = Vec::new();
        if len < N {
            return entries;
        }
        let start = len - N;
        let mut i = start;
        while i < len
            invariant
                start == len - N,
                len == self.0@.len(),
                start <= i <= len,
                entries_view(entries@) =~= self@.subrange(start as int, i as int),
            decreases len - i,
        {
            let entry = self.0[i].duplicate();
            let ghost before = entries_view(entries@);
            entries.push(entry);
            assert(entries_view(entries@) =~= before.push(self@[i as int]));
            i += 1;
        }
        entries
    }

    pub fn last_log_info(&self) -> (info: LogsInformation)
        ensures
            info@ == last_log_info_of(self@),
    {
        let len = self.0.len();
        if len == 0 {
            LogsInformation { last_log_index: 0, last_log_term: 0 }
        } else {
            let entry = &self.0[len - 1];
            LogsInformation { last_log_index: entry.index, last_log_term: entry.term }
        }
    }

    /// Merges the new entries into the log, one after the other (see `merge_entry`):
    /// an entry whose index holds an entry of another term replaces it and drops all
    /// that follow; an entry past the end is appended. Returns the information of the
    /// last entry of the merged log.
    pub fn merge(&mut self, new_entries: Vec<LogEntry>) -> (info: LogsInformation)
        ensures
            final(self)@ == merge_entries(old(self)@, entries_view(new_entries@)),
            info@ == last_log_info_of(final(self)@),
    {
        let ghost new_view = entries_view(new_entries@);
        let n = new_entries.len();
        let mut i: usize = 0;
        while i < n
            invariant
                n == new_entries@.len(),
                new_view == entries_view(new_entries@),
                0 <= i <= n,
                self@ == merge_entries(old(self)@, new_view.take(i as int)),
            decreases n - i,
        {
            let entry = new_entries[i].duplicate();
            let ghost before = self@;
            let len = self.0.len();
            if entry.index < len as u64 {
                let idx = entry.index as usize;
                if self.0[idx].term != entry.term {
                    self.0.truncate(idx);
                    self.0.push(entry);
                    assert(self@ =~= before.take(idx as int).push(new_view[i as int]));
                }
            } else {
                self.0.push(entry);
                assert(self@ =~= before.push(new_view[i as int]));
            }
            assert(new_view.take(i + 1).drop_last() =~= new_view.take(i as int));
            i += 1;
        }
        assert(new_view.take(n as int) =~= new_view);
        self.last_log_info()
    }

    /// Appends a new entry carrying `command` in `term`, at the index that follows
    /// the last one (0 for an empty log).
    pub fn new_entry(&mut self, term: u64, command: Vec<u8>)
        requires
            old(self)@.len() > 0 ==> old(self)@.last().index < u64::MAX,
        ensures
            final(self)@ == append_command(old(self)@, term, command@),
    {
        let len = self.0.len();
        let index = if len == 0 { 0 } else { self.0[len - 1].index + 1 };
        let ghost before = self@;
        self.0.push(LogEntry { index, term, command });
        assert(self@ =~= append_command(before, term, command@));
    }

    /// Whether the log holds an entry at `prev_log_index` whose term is
    /// `prev_log_term`; an empty log matches the index 0.
    pub fn previous_log_entry_is_up_to_date(&self, prev_log_index: usize, prev_log_term: u64) -> (up_to_date: bool)
        requires
            prev_log_index + self@.len() <= usize::MAX,
        ensures
            up_to_date == previous_entry_matches(self@, prev_log_index as int, prev_log_term),
    {
        if prev_log_index + self.0.len() == 0 {
            return true;
        }
        if prev_log_index < self.0.len() {
            self.0[prev_log_index].term == prev_log_term
        } else {
            false
        }
    }
}

} // verus!
