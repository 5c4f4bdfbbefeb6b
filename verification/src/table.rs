use vstd::prelude::*;
use vstd::bytes::{
    lemma_auto_spec_u32_to_from_le_bytes, lemma_auto_spec_u64_to_from_le_bytes, spec_u32_from_le_bytes,
    spec_u32_to_le_bytes, spec_u64_from_le_bytes, spec_u64_to_le_bytes, u32_from_le_bytes, u32_to_le_bytes,
    u64_from_le_bytes, u64_to_le_bytes,
};
use vstd::slice::{slice_subrange, slice_to_vec};
use vstd::utf8::{decode_utf8, encode_utf8, valid_utf8};

verus! {

broadcast use {vstd::utf8::encode_utf8_decode_utf8, vstd::utf8::decode_utf8_encode_utf8, vstd::utf8::encode_utf8_valid_utf8};

/// Where a record of a table lies in the table's data file, and when it was
/// created and last updated (seconds since the Unix epoch).
#[derive(Debug)]
pub struct IndexEntry {
    pub id: String,
    pub offset: u64,
    pub length: u64,
    pub created_at: u64,
    pub updated_at: u64,
}

/// An index entry as mathematical values.
pub struct IndexEntryView {
    pub id: Seq<char>,
    pub offset: u64,
    pub length: u64,
    pub created_at: u64,
    pub updated_at: u64,
}

impl View for IndexEntry {
    type V = IndexEntryView;

    open spec fn view(&self) -> IndexEntryView {
        IndexEntryView {
            id: self.id@,
            offset: self.offset,
            length: self.length,
            created_at: self.created_at,
            updated_at: self.updated_at,
        }
    }
}

/// The map from record identifier to entry that a sequence of entries describes;
/// a later entry with the same identifier replaces an earlier one.
pub open spec fn index_map(entries: Seq<IndexEntryView>) -> Map<Seq<char>, IndexEntryView>
    decreases entries.len(),
{
    if entries.len() == 0 {
        Map::empty()
    } else {
        index_map(entries.drop_last()).insert(entries.last().id, entries.last())
    }
}

/// No two entries have the same identifier.
pub open spec fn distinct_ids(entries: Seq<IndexEntryView>) -> bool {
    forall|i: int, j: int| 0 <= i < j < entries.len() ==> #[trigger] entries[i].id != #[trigger] entries[j].id
}

/// Every identifier's UTF-8 encoding is short enough for its length to be written
/// in four bytes.
pub open spec fn ids_fit(entries: Seq<IndexEntryView>) -> bool {
    forall|i: int| 0 <= i < entries.len() ==> #[trigger] encode_utf8(entries[i].id).len() <= u32::MAX
}

/// The text of a version-7 UUID as `uuid` prints it: 36 characters, lowercase
/// hexadecimal digits in groups of 8, 4, 4, 4 and 12 separated by hyphens, with
/// the version digit `7` and a variant digit among `8`, `9`, `a`, `b`.
pub open spec fn is_v7_uuid_text(s: Seq<char>) -> bool {
    &&& s.len() == 36
    &&& forall|i: int|
        0 <= i < 36 ==> if i == 8 || i == 13 || i == 18 || i == 23 {
            #[trigger] s[i] == '-'
        } else {
            ('0' <= s[i] <= '9') || ('a' <= s[i] <= 'f')
        }
    &&& s[14] == '7'
    &&& (s[19] == '8' || s[19] == '9' || s[19] == 'a' || s[19] == 'b')
}

/// The lowercase hexadecimal digit of a value below 16.
pub open spec fn hex_digit(n: int) -> char {
    if n < 10 {
        (48 + n) as char
    } else {
        (87 + n) as char
    }
}

/// The 16 bytes of the version-7 UUID made from a Unix time in milliseconds and 10
/// random bytes: the low 48 bits of the time, big endian; then version 7 over the
/// low half of the first random byte; the second random byte; the variant bits `10`
/// over the low six bits of the third random byte; the last seven random bytes.
pub open spec fn uuid_v7_bytes(millis: u64, random: Seq<u8>) -> Seq<u8> {
    seq![
        ((millis / 0x100_0000_0000) % 256) as u8,
        ((millis / 0x1_0000_0000) % 256) as u8,
        ((millis / 0x100_0000) % 256) as u8,
        ((millis / 0x1_0000) % 256) as u8,
        ((millis / 0x100) % 256) as u8,
        (millis % 256) as u8,
        (0x70 + random[0] % 16) as u8,
        random[1],
        (0x80 + random[2] % 64) as u8,
        random[3],
        random[4],
        random[5],
        random[6],
        random[7],
        random[8],
        random[9],
    ]
}

/// The position among the 32 hexadecimal digits of the character at position `i`
/// of the hyphenated text.
pub open spec fn digit_position(i: int) -> int {
    if i < 8 {
        i
    } else if i < 13 {
        i - 1
    } else if i < 18 {
        i - 2
    } else if i < 23 {
        i - 3
    } else {
        i - 4
    }
}

/// 16 bytes as hyphenated lowercase hexadecimal text: two digits per byte, high
/// half first, in groups of 8, 4, 4, 4 and 12 digits.
pub open spec fn hyphenated_text(bytes: Seq<u8>) -> Seq<char> {
    Seq::new(
        36,
        |i: int|
            if i == 8 || i == 13 || i == 18 || i == 23 {
                '-'
            } else {
                let k = digit_position(i);
                if k % 2 == 0 {
                    hex_digit((bytes[k / 2] / 16) as int)
                } else {
                    hex_digit((bytes[k / 2] % 16) as int)
                }
            },
    )
}

/// The text of the version-7 UUID made from `millis` and `random`.
pub open spec fn uuid_v7_text(millis: u64, random: Seq<u8>) -> Seq<char> {
    hyphenated_text(uuid_v7_bytes(millis, random))
}

/// The identifier of a record created at `millis` (milliseconds since the Unix
/// epoch) with the 10 random bytes `random`: calls
/// `uuid::Builder::from_unix_timestamp_millis`, then `into_uuid` and `to_string`,
/// which lay the bytes out as `uuid_v7_bytes` and print them as `hyphenated_text`.
#[verifier::external_body]
fn uuid_v7_id(millis: u64, random: &[u8; 10]) -> (id: String)
    ensures
        id@ == uuid_v7_text(millis, random@),
{
    uuid::Builder::from_unix_timestamp_millis(millis, random).into_uuid().to_string()
}

/// Every text `uuid_v7_text` gives has the shape of a version-7 UUID.
pub proof fn lemma_uuid_v7_text_shape(millis: u64, random: Seq<u8>)
    requires
        random.len() == 10,
    ensures
        is_v7_uuid_text(uuid_v7_text(millis, random)),
{
    let bytes = uuid_v7_bytes(millis, random);
    let s = uuid_v7_text(millis, random);
    assert forall|i: int| 0 <= i < 36 implies if i == 8 || i == 13 || i == 18 || i == 23 {
        #[trigger] s[i] == '-'
    } else {
        ('0' <= s[i] <= '9') || ('a' <= s[i] <= 'f')
    } by {
        if !(i == 8 || i == 13 || i == 18 || i == 23) {
            let k = digit_position(i);
            assert(0 <= k < 32);
            let b = bytes[k / 2];
            assert(0 <= b / 16 < 16 && 0 <= b % 16 < 16);
        }
    }
    assert(bytes[6] / 16 == 7);
    assert(8 <= bytes[8] / 16 <= 11);
}

/// The in-memory index of a table of records: one entry per record identifier.
#[derive(Debug)]
pub struct TableIndex {
    entries: Vec<IndexEntry>,
}

impl View for TableIndex {
    type V = Map<Seq<char>, IndexEntryView>;

    closed spec fn view(&self) -> Map<Seq<char>, IndexEntryView> {
        index_map(self.entry_seq())
    }
}

proof fn lemma_index_map_distinct(entries: Seq<IndexEntryView>)
    requires
        distinct_ids(entries),
    ensures
        forall|i: int|
            0 <= i < entries.len() ==> #[trigger] index_map(entries).contains_key(entries[i].id)
                && index_map(entries)[entries[i].id] == entries[i],
        forall|k: Seq<char>|
            #[trigger] index_map(entries).contains_key(k) ==> exists|i: int| 0 <= i < entries.len() && entries[i].id == k,
    decreases entries.len(),
{
    if entries.len() > 0 {
        let init = entries.drop_last();
        assert forall|i: int, j: int| 0 <= i < j < init.len() implies #[trigger] init[i].id != #[trigger] init[j].id by {
            assert(init[i] == entries[i] && init[j] == entries[j]);
        }
        lemma_index_map_distinct(init);
        let last = entries.last();
        assert(index_map(entries) == index_map(init).insert(last.id, last));
        assert forall|i: int| 0 <= i < entries.len() implies #[trigger] index_map(entries).contains_key(entries[i].id)
            && index_map(entries)[entries[i].id] == entries[i] by {
            if i < entries.len() - 1 {
                assert(init[i] == entries[i]);
                assert(entries[i].id != entries[entries.len() - 1].id);
            }
        }
        assert forall|k: Seq<char>| #[trigger] index_map(entries).contains_key(k) implies exists|i: int|
            0 <= i < entries.len() && entries[i].id == k by {
            if k != entries.last().id {
                assert(index_map(init).contains_key(k));
                let i = choose|i: int| 0 <= i < init.len() && init[i].id == k;
                assert(entries[i] == init[i]);
            } else {
                assert(entries[entries.len() - 1].id == k);
            }
        }
    }
}

impl TableIndex {
    /// The entries in the order they are written to the indices file.
    pub closed spec fn entry_seq(&self) -> Seq<IndexEntryView> {
        self.entries@.map_values(|e: IndexEntry| e@)
    }

    /// Identifiers are unique and short enough to be written.
    pub closed spec fn wf(&self) -> bool {
        distinct_ids(self.entry_seq()) && ids_fit(self.entry_seq())
    }

    /// An index with no records.
    pub fn new() -> (index: Self)
        ensures
            index.wf(),
            index@ == Map::<Seq<char>, IndexEntryView>::empty(),
            index.entry_seq() == Seq::<IndexEntryView>::empty(),
    {
        let index = TableIndex { entries: Vec::new() };
        assert(index.entry_seq() =~= Seq::<IndexEntryView>::empty());
        index
    }

    /// The number of records.
    pub fn len(&self) -> (len: usize)
        requires
            self.wf(),
        ensures
            len == self@.len(),
    {
        proof {
            self.lemma_dom_is_ids();
        }
        self.entries.len()
    }

    proof fn lemma_dom_is_ids(&self)
        requires
            self.wf(),
        ensures
            self@.dom() == self.entry_seq().map_values(|e: IndexEntryView| e.id).to_set(),
            self@.len() == self.entry_seq().len(),
    {
        let s = self.entry_seq();
        let ids = s.map_values(|e: IndexEntryView| e.id);
        lemma_index_map_distinct(s);
        assert forall|k: Seq<char>| self@.dom().contains(k) <==> ids.to_set().contains(k) by {
            if self@.dom().contains(k) {
                let i = choose|i: int| 0 <= i < s.len() && s[i].id == k;
                assert(ids[i] == k);
            }
            if ids.to_set().contains(k) {
                let i = choose|i: int| 0 <= i < ids.len() && ids[i] == k;
                assert(s[i].id == k);
            }
        }
        assert(self@.dom() =~= ids.to_set());
        assert forall|i: int, j: int| 0 <= i < ids.len() && 0 <= j < ids.len() && i != j implies ids[i] != ids[j] by {
            if i < j {
                assert(s[i].id != s[j].id);
            } else {
                assert(s[j].id != s[i].id);
            }
        }
        ids.unique_seq_to_set();
        assert(self@.dom().finite());
        assert(self@.len() == self@.dom().len());
    }

    /// The position of the entry for `id`, if there is one.
    fn position(&self, id: &String) -> (pos: Option<usize>)
        requires
            self.wf(),
        ensures
            pos matches Some(i) ==> i < self.entry_seq().len() && self.entry_seq()[i as int].id == id@,
            pos is None ==> !self@.contains_key(id@),
    {
        proof {
            lemma_index_map_distinct(self.entry_seq());
        }
        let mut i: usize = 0;
        while i < self.entries.len()
            invariant
                0 <= i <= self.entries@.len(),
                forall|j: int| 0 <= j < i ==> self.entry_seq()[j].id != id@,
            decreases self.entries@.len() - i,
        {
            if self.entries[i].id == *id {
                return Some(i);
            }
            i += 1;
        }
        None
    }

    /// Whether a record with this identifier is indexed.
    pub fn contains(&self, id: &str) -> (found: bool)
        requires
            self.wf(),
        ensures
            found == self@.contains_key(id@),
    {
        let key = id.to_owned();
        proof {
            lemma_index_map_distinct(self.entry_seq());
        }
        self.position(&key).is_some()
    }

    /// The entry of the record with this identifier, if it is indexed.
    pub fn get_metadata(&self, id: &str) -> (entry: Option<&IndexEntry>)
        requires
            self.wf(),
        ensures
            entry is Some == self@.contains_key(id@),
            entry matches Some(e) ==> e@ == self@[id@],
    {
        let key = id.to_owned();
        proof {
            lemma_index_map_distinct(self.entry_seq());
        }
        match self.position(&key) {
            Some(i) => {
                assert(self.entry_seq()[i as int] == self.entries@[i as int]@);
                assert(index_map(self.entry_seq()).contains_key(self.entry_seq()[i as int].id));
                Some(&self.entries[i])
            },
            None => None,
        }
    }

    /// The identifiers of all indexed records, each once.
    pub fn list_ids(&self) -> (ids: Vec<String>)
        requires
            self.wf(),
        ensures
            ids@.map_values(|s: String| s@).to_set() == self@.dom(),
            ids@.map_values(|s: String| s@).no_duplicates(),
    {
        let mut ids: Vec<String> = Vec::new();
        let mut i: usize = 0;
        while i < self.entries.len()
            invariant
                0 <= i <= self.entries@.len(),
                ids@.map_values(|s: String| s@) =~= self.entry_seq().map_values(|e: IndexEntryView| e.id).take(i as int),
            decreases self.entries@.len() - i,
        {
            let id = self.entries[i].id.clone();
            let ghost before = ids@.map_values(|s: String| s@);
            ids.push(id);
            proof {
                let all = self.entry_seq().map_values(|e: IndexEntryView| e.id);
                assert(all[i as int] == self.entries@[i as int].id@);
                assert(all.take(i + 1) =~= all.take(i as int).push(all[i as int]));
                assert(ids@.map_values(|s: String| s@) =~= before.push(all[i as int]));
            }
            i += 1;
        }
        proof {
            self.lemma_dom_is_ids();
            let s = self.entry_seq();
            let all = s.map_values(|e: IndexEntryView| e.id);
            assert(all.take(self.entries@.len() as int) =~= all);
            assert forall|a: int, b: int| 0 <= a < all.len() && 0 <= b < all.len() && a != b implies all[a] != all[b] by {
                if a < b {
                    assert(s[a].id != s[b].id);
                } else {
                    assert(s[b].id != s[a].id);
                }
            }
        }
        ids
    }

    /// Adds the entry, replacing the one with the same identifier if there is one.
    pub fn insert(&mut self, entry: IndexEntry)
        requires
            old(self).wf(),
            encode_utf8(entry.id@).len() <= u32::MAX,
        ensures
            final(self).wf(),
            final(self)@ == old(self)@.insert(entry.id@, entry@),
    {
        let ghost before = self.entry_seq();
        let ghost ev = entry@;
        proof {
            lemma_index_map_distinct(before);
        }
        match self.position(&entry.id) {
            Some(i) => {
                self.entries.set(i, entry);
                proof {
                    let after = self.entry_seq();
                    assert(after =~= before.update(i as int, ev));
                    assert forall|a: int, b: int| 0 <= a < b < after.len() implies #[trigger] after[a].id
                        != #[trigger] after[b].id by {
                        assert(after[a].id == before[a].id || a == i);
                        assert(after[b].id == before[b].id || b == i);
                    }
                    lemma_index_map_distinct(after);
                    assert forall|k: Seq<char>| #[trigger] self@.contains_key(k) <==> old(self)@.insert(ev.id, ev).contains_key(k) by {
                        if self@.contains_key(k) {
                            let j = choose|j: int| 0 <= j < after.len() && after[j].id == k;
                            if j != i {
                                assert(before[j] == after[j]);
                            }
                        }
                        if k == ev.id {
                            assert(after[i as int].id == k);
                            assert(index_map(after).contains_key(after[i as int].id));
                        } else if old(self)@.contains_key(k) {
                            let j = choose|j: int| 0 <= j < before.len() && before[j].id == k;
                            assert(j != i);
                            assert(before[j] == after[j]);
                            assert(index_map(after).contains_key(after[j].id));
                        }
                    }
                    assert forall|k: Seq<char>| #[trigger] self@.contains_key(k) implies self@[k] == old(self)@.insert(ev.id, ev)[k] by {
                        let j = choose|j: int| 0 <= j < after.len() && after[j].id == k;
                        if j != i {
                            assert(before[j] == after[j]);
                        }
                    }
                    assert(self@ =~= old(self)@.insert(ev.id, ev));
                }
            },
            None => {
                self.entries.push(entry);
                proof {
                    let after = self.entry_seq();
                    assert(after =~= before.push(ev));
                    assert(after.drop_last() =~= before);
                    assert forall|a: int, b: int| 0 <= a < b < after.len() implies #[trigger] after[a].id
                        != #[trigger] after[b].id by {
                        if b == after.len() - 1 {
                            assert(after[a] == before[a]);
                            assert(index_map(before).contains_key(before[a].id));
                        } else {
                            assert(after[a] == before[a] && after[b] == before[b]);
                        }
                    }
                }
            },
        }
    }

    /// Removes the record with this identifier; tells whether it was indexed.
    pub fn remove(&mut self, id: &str) -> (existed: bool)
        requires
            old(self).wf(),
        ensures
            final(self).wf(),
            existed == old(self)@.contains_key(id@),
            final(self)@ == old(self)@.remove(id@),
    {
        let key = id.to_owned();
        let ghost before = self.entry_seq();
        proof {
            lemma_index_map_distinct(before);
        }
        match self.position(&key) {
            Some(i) => {
                self.entries.remove(i);
                proof {
                    let after = self.entry_seq();
                    assert(after =~= before.remove(i as int));
                    assert forall|a: int, b: int| 0 <= a < b < after.len() implies #[trigger] after[a].id
                        != #[trigger] after[b].id by {
                        let a0 = if a < i { a } else { a + 1 };
                        let b0 = if b < i { b } else { b + 1 };
                        assert(after[a] == before[a0] && after[b] == before[b0]);
                    }
                    lemma_index_map_distinct(after);
                    assert forall|k: Seq<char>| #[trigger] self@.contains_key(k) <==> old(self)@.remove(id@).contains_key(k) by {
                        if self@.contains_key(k) {
                            let j = choose|j: int| 0 <= j < after.len() && after[j].id == k;
                            let j0 = if j < i { j } else { j + 1 };
                            assert(after[j] == before[j0]);
                        }
                        if old(self)@.remove(id@).contains_key(k) {
                            let j = choose|j: int| 0 <= j < before.len() && before[j].id == k;
                            assert(j != i);
                            let j1 = if j < i { j } else { j - 1 };
                            assert(after[j1] == before[j]);
                        }
                    }
                    assert forall|k: Seq<char>| #[trigger] self@.contains_key(k) implies self@[k] == old(self)@.remove(id@)[k] by {
                        let j = choose|j: int| 0 <= j < after.len() && after[j].id == k;
                        let j0 = if j < i { j } else { j + 1 };
                        assert(after[j] == before[j0]);
                    }
                    assert(self@ =~= old(self)@.remove(id@));
                }
                true
            },
            None => {
                assert(self@ =~= old(self)@.remove(id@));
                false
            },
        }
    }

    /// Indexes a new record stored at `offset` with `length` bytes, created at `now`
    /// (seconds), under the version-7 UUID made from `millis` and `random`, which is
    /// returned.
    pub fn record_create(
        &mut self,
        offset: u64,
        length: u64,
        now: u64,
        millis: u64,
        random: &[u8; 10],
    ) -> (id: String)
        requires
            old(self).wf(),
        ensures
            final(self).wf(),
            id@ == uuid_v7_text(millis, random@),
            is_v7_uuid_text(id@),
            final(self)@ == old(self)@.insert(
                id@,
                IndexEntryView { id: id@, offset, length, created_at: now, updated_at: now },
            ),
    {
        let id = uuid_v7_id(millis, random);
        proof {
            lemma_uuid_v7_text_shape(millis, random@);
            assert(vstd::utf8::is_ascii_chars(id@));
            vstd::utf8::is_ascii_chars_encode_utf8(id@);
        }
        let entry = IndexEntry { id: id.clone(), offset, length, created_at: now, updated_at: now };
        self.insert(entry);
        id
    }

    /// Points the record with this identifier at its new bytes (`offset`, `length`)
    /// written at `now`; tells whether the record was indexed (nothing changes if not).
    pub fn record_update(&mut self, id: &str, offset: u64, length: u64, now: u64) -> (updated: bool)
        requires
            old(self).wf(),
        ensures
            final(self).wf(),
            updated == old(self)@.contains_key(id@),
            updated ==> final(self)@ == old(self)@.insert(
                id@,
                IndexEntryView { offset, length, updated_at: now, ..old(self)@[id@] },
            ),
            !updated ==> final(self)@ == old(self)@,
    {
        let key = id.to_owned();
        proof {
            lemma_index_map_distinct(self.entry_seq());
        }
        match self.position(&key) {
            Some(i) => {
                let created_at = self.entries[i].created_at;
                proof {
                    assert(ids_fit(self.entry_seq()));
                    assert(self.entry_seq()[i as int] == self.entries@[i as int]@);
                    assert(index_map(self.entry_seq()).contains_key(self.entry_seq()[i as int].id));
                    assert(self@[id@] == self.entry_seq()[i as int]);
                    assert(encode_utf8(self.entry_seq()[i as int].id).len() <= u32::MAX);
                }
                let entry = IndexEntry { id: key, offset, length, created_at, updated_at: now };
                self.insert(entry);
                true
            },
            None => false,
        }
    }
}

/// Why the indices file could not be read back.
#[derive(Debug, Clone, Copy, PartialEq, Eq, Structural)]
pub enum IndexDecodeError {
    /// The file ends in the middle of an entry.
    Truncated,
    /// An identifier is not valid UTF-8.
    InvalidUtf8,
}

/// How one entry is written: the byte length of the identifier (4 bytes, little
/// endian), the identifier in UTF-8, then the offset, the length, the creation and
/// the update times (8 bytes each, little endian).
pub open spec fn encode_entry(e: IndexEntryView) -> Seq<u8> {
    spec_u32_to_le_bytes(encode_utf8(e.id).len() as u32) + encode_utf8(e.id) + spec_u64_to_le_bytes(e.offset)
        + spec_u64_to_le_bytes(e.length) + spec_u64_to_le_bytes(e.created_at) + spec_u64_to_le_bytes(
        e.updated_at,
    )
}

/// The entries written one after the other.
pub open spec fn encode_entries(entries: Seq<IndexEntryView>) -> Seq<u8>
    decreases entries.len(),
{
    if entries.len() == 0 {
        Seq::empty()
    } else {
        encode_entries(entries.drop_last()) + encode_entry(entries.last())
    }
}

/// The indices file: the number of entries (8 bytes, little endian), then the entries.
pub open spec fn encode_indices(entries: Seq<IndexEntryView>) -> Seq<u8> {
    spec_u64_to_le_bytes(entries.len() as u64) + encode_entries(entries)
}

/// Reads the entry at the front of `bytes`: the entry and the number of bytes it took.
pub open spec fn decode_entry(bytes: Seq<u8>) -> Result<(IndexEntryView, int), IndexDecodeError> {
    if bytes.len() < 4 {
        Err(IndexDecodeError::Truncated)
    } else {
        let n = spec_u32_from_le_bytes(bytes.take(4)) as int;
        if bytes.len() < 4 + n {
            Err(IndexDecodeError::Truncated)
        } else if !valid_utf8(bytes.subrange(4, 4 + n)) {
            Err(IndexDecodeError::InvalidUtf8)
        } else if bytes.len() < 36 + n {
            Err(IndexDecodeError::Truncated)
        } else {
            Ok(
                (
                    IndexEntryView {
                        id: decode_utf8(bytes.subrange(4, 4 + n)),
                        offset: spec_u64_from_le_bytes(bytes.subrange(4 + n, 12 + n)),
                        length: spec_u64_from_le_bytes(bytes.subrange(12 + n, 20 + n)),
                        created_at: spec_u64_from_le_bytes(bytes.subrange(20 + n, 28 + n)),
                        updated_at: spec_u64_from_le_bytes(bytes.subrange(28 + n, 36 + n)),
                    },
                    36 + n,
                ),
            )
        }
    }
}

/// Reads `count` entries from the front of `bytes`.
pub open spec fn decode_entries(bytes: Seq<u8>, count: nat) -> Result<Seq<IndexEntryView>, IndexDecodeError>
    decreases count,
{
    if count == 0 {
        Ok(Seq::empty())
    } else {
        match decode_entry(bytes) {
            Err(e) => Err(e),
            Ok((entry, used)) => match decode_entries(bytes.skip(used), (count - 1) as nat) {
                Ok(rest) => Ok(seq![entry] + rest),
                Err(e) => Err(e),
            },
        }
    }
}

/// Reads an indices file: an empty file holds no entries; otherwise the count comes
/// first, then that many entries (bytes after them are ignored).
pub open spec fn decode_indices(bytes: Seq<u8>) -> Result<Seq<IndexEntryView>, IndexDecodeError> {
    if bytes.len() == 0 {
        Ok(Seq::empty())
    } else if bytes.len() < 8 {
        Err(IndexDecodeError::Truncated)
    } else {
        decode_entries(bytes.skip(8), spec_u64_from_le_bytes(bytes.take(8)) as nat)
    }
}

/// `prefix` put in front of a decoded sequence; errors pass through.
pub open spec fn prepend(prefix: Seq<IndexEntryView>, r: Result<Seq<IndexEntryView>, IndexDecodeError>) -> Result<
    Seq<IndexEntryView>,
    IndexDecodeError,
> {
    match r {
        Ok(s) => Ok(prefix + s),
        Err(e) => Err(e),
    }
}

/// Decodes UTF-8: calls `String::from_utf8`, which succeeds exactly when the bytes
/// are valid UTF-8 and then holds the characters they encode.
#[verifier::external_body]
fn string_from_utf8(bytes: Vec<u8>) -> (text: Option<String>)
    ensures
        text is Some == valid_utf8(bytes@),
        text matches Some(t) ==> t@ == decode_utf8(bytes@),
{
    String::from_utf8(bytes).ok()
}

/// Reads the entry that starts at `pos`.
fn decode_one(bytes: &[u8], pos: usize) -> (result: Result<(IndexEntry, usize), IndexDecodeError>)
    requires
        pos <= bytes@.len(),
    ensures
        match decode_entry(bytes@.skip(pos as int)) {
            Ok((e, used)) => result matches Ok((entry, n)) && entry@ == e && n == used
                && encode_utf8(e.id).len() <= u32::MAX,
            Err(err) => result == Err::<(IndexEntry, usize), IndexDecodeError>(err),
        },
        result matches Ok((_, n)) ==> pos + n <= bytes@.len(),
{
    let ghost b = bytes@.skip(pos as int);
    let len = bytes.len();
    if len - pos < 4 {
        return Err(IndexDecodeError::Truncated);
    }
    let head = slice_subrange(bytes, pos, pos + 4);
    assert(head@ =~= b.take(4));
    let n = u32_from_le_bytes(head) as usize;
    if len - pos - 4 < n {
        return Err(IndexDecodeError::Truncated);
    }
    let id_bytes = slice_to_vec(slice_subrange(bytes, pos + 4, pos + 4 + n));
    assert(id_bytes@ =~= b.subrange(4, 4 + n as int));
    let id = match string_from_utf8(id_bytes) {
        Some(text) => text,
        None => {
            return Err(IndexDecodeError::InvalidUtf8);
        },
    };
    if len - pos - 4 - n < 32 {
        return Err(IndexDecodeError::Truncated);
    }
    let base = pos + 4 + n;
    let offset_bytes = slice_subrange(bytes, base, base + 8);
    let length_bytes = slice_subrange(bytes, base + 8, base + 16);
    let created_bytes = slice_subrange(bytes, base + 16, base + 24);
    let updated_bytes = slice_subrange(bytes, base + 24, base + 32);
    assert(offset_bytes@ =~= b.subrange(4 + n as int, 12 + n as int));
    assert(length_bytes@ =~= b.subrange(12 + n as int, 20 + n as int));
    assert(created_bytes@ =~= b.subrange(20 + n as int, 28 + n as int));
    assert(updated_bytes@ =~= b.subrange(28 + n as int, 36 + n as int));
    let entry = IndexEntry {
        id,
        offset: u64_from_le_bytes(offset_bytes),
        length: u64_from_le_bytes(length_bytes),
        created_at: u64_from_le_bytes(created_bytes),
        updated_at: u64_from_le_bytes(updated_bytes),
    };
    Ok((entry, 36 + n))
}

impl TableIndex {
    /// Writes the index in the format of the indices file (see `encode_indices`).
    pub fn encode(&self) -> (bytes: Vec<u8>)
        requires
            self.wf(),
        ensures
            bytes@ == encode_indices(self.entry_seq()),
    {
        let mut out = u64_to_le_bytes(self.entries.len() as u64);
        let mut i: usize = 0;
        while i < self.entries.len()
            invariant
                0 <= i <= self.entries@.len(),
                ids_fit(self.entry_seq()),
                out@ == spec_u64_to_le_bytes(self.entries@.len() as u64) + encode_entries(self.entry_seq().take(i as int)),
            decreases self.entries@.len() - i,
        {
            let entry = &self.entries[i];
            let ghost e = self.entry_seq()[i as int];
            assert(e == entry@);
            let id_bytes = entry.id.as_str().as_bytes();
            assert(encode_utf8(e.id).len() <= u32::MAX);
            let ghost before = out@;
            let mut piece = u32_to_le_bytes(id_bytes.len() as u32);
            let mut id_vec = slice_to_vec(id_bytes);
            piece.append(&mut id_vec);
            let mut word = u64_to_le_bytes(entry.offset);
            piece.append(&mut word);
            let mut word = u64_to_le_bytes(entry.length);
            piece.append(&mut word);
            let mut word = u64_to_le_bytes(entry.created_at);
            piece.append(&mut word);
            let mut word = u64_to_le_bytes(entry.updated_at);
            piece.append(&mut word);
            assert(piece@ =~= encode_entry(e));
            out.append(&mut piece);
            proof {
                let s = self.entry_seq();
                assert(s.take(i + 1).drop_last() =~= s.take(i as int));
                assert(s.take(i + 1).last() == e);
                assert(out@ =~= spec_u64_to_le_bytes(self.entries@.len() as u64) + encode_entries(s.take(i + 1)));
            }
            i += 1;
        }
        assert(self.entry_seq().take(self.entries@.len() as int) =~= self.entry_seq());
        assert(self.entry_seq().len() == self.entries@.len());
        out
    }

    /// Reads an index back from the bytes of an indices file (see `decode_indices`).
    /// Entries that share an identifier keep the last one.
    pub fn decode(bytes: &[u8]) -> (result: Result<TableIndex, IndexDecodeError>)
        ensures
            match decode_indices(bytes@) {
                Ok(entries) => result matches Ok(index) && index.wf() && index@ == index_map(entries),
                Err(e) => result matches Err(err) && err == e,
            },
    {
        if bytes.len() == 0 {
            let index = TableIndex::new();
            assert(index@ =~= index_map(Seq::<IndexEntryView>::empty()));
            return Ok(index);
        }
        if bytes.len() < 8 {
            return Err(IndexDecodeError::Truncated);
        }
        let head = slice_subrange(bytes, 0, 8);
        assert(head@ =~= bytes@.take(8));
        let count = u64_from_le_bytes(head);
        let mut index = TableIndex::new();
        let mut pos: usize = 8;
        let mut k: u64 = 0;
        let ghost mut decoded: Seq<IndexEntryView> = Seq::empty();
        let total = bytes.len();
        assert(decoded + Seq::<IndexEntryView>::empty() =~= decoded);
        while k < count
            invariant
                8 <= pos <= bytes@.len(),
                total == bytes@.len(),
                k <= count,
                count == spec_u64_from_le_bytes(bytes@.take(8)),
                bytes@.len() >= 8,
                index.wf(),
                index@ == index_map(decoded),
                decode_indices(bytes@) == prepend(decoded, decode_entries(bytes@.skip(pos as int), (count - k) as nat)),
            decreases count - k,
        {
            let step = decode_one(bytes, pos);
            match step {
                Err(e) => {
                    return Err(e);
                },
                Ok((entry, used)) => {
                    let ghost ev = entry@;
                    assert(pos + used <= bytes@.len());
                    proof {
                        let rest = decode_entries(bytes@.skip(pos as int).skip(used as int), (count - k - 1) as nat);
                        assert(bytes@.skip(pos as int).skip(used as int) =~= bytes@.skip(pos + used));
                        match rest {
                            Ok(r) => {
                                assert(decoded + (seq![ev] + r) =~= decoded.push(ev) + r);
                            },
                            Err(_) => {},
                        }
                        assert(decoded.push(ev).drop_last() =~= decoded);
                    }
                    index.insert(entry);
                    proof {
                        decoded = decoded.push(ev);
                    }
                    pos = pos + used;
                    k = k + 1;
                },
            }
        }
        assert(decoded + Seq::<IndexEntryView>::empty() =~= decoded);
        Ok(index)
    }
}

proof fn lemma_encode_entry_len(e: IndexEntryView)
    ensures
        encode_entry(e).len() == 36 + encode_utf8(e.id).len(),
{
    lemma_auto_spec_u32_to_from_le_bytes();
    lemma_auto_spec_u64_to_from_le_bytes();
}

/// An encoded entry reads back as itself, whatever follows it.
proof fn lemma_decode_encoded_entry(e: IndexEntryView, rest: Seq<u8>)
    requires
        encode_utf8(e.id).len() <= u32::MAX,
    ensures
        decode_entry(encode_entry(e) + rest) == Ok::<(IndexEntryView, int), IndexDecodeError>((e, encode_entry(e).len() as int)),
{
    lemma_auto_spec_u32_to_from_le_bytes();
    lemma_auto_spec_u64_to_from_le_bytes();
    lemma_encode_entry_len(e);
    let idb = encode_utf8(e.id);
    let n = idb.len() as int;
    let b = encode_entry(e) + rest;
    assert(b.take(4) =~= spec_u32_to_le_bytes(n as u32));
    assert(spec_u32_from_le_bytes(b.take(4)) == n as u32);
    assert(b.subrange(4, 4 + n) =~= idb);
    assert(b.subrange(4 + n, 12 + n) =~= spec_u64_to_le_bytes(e.offset));
    assert(b.subrange(12 + n, 20 + n) =~= spec_u64_to_le_bytes(e.length));
    assert(b.subrange(20 + n, 28 + n) =~= spec_u64_to_le_bytes(e.created_at));
    assert(b.subrange(28 + n, 36 + n) =~= spec_u64_to_le_bytes(e.updated_at));
}

/// The encoding of a non-empty sequence starts with the encoding of its first entry.
proof fn lemma_encode_entries_front(entries: Seq<IndexEntryView>)
    requires
        entries.len() > 0,
    ensures
        encode_entries(entries) == encode_entry(entries[0]) + encode_entries(entries.drop_first()),
    decreases entries.len(),
{
    if entries.len() == 1 {
        assert(entries.drop_last() =~= Seq::<IndexEntryView>::empty());
        assert(entries.drop_first() =~= Seq::<IndexEntryView>::empty());
        assert(encode_entries(entries) =~= encode_entry(entries[0]) + encode_entries(entries.drop_first()));
    } else {
        lemma_encode_entries_front(entries.drop_last());
        assert(entries.drop_last().drop_first() =~= entries.drop_first().drop_last());
        assert(entries.drop_first().last() == entries.last());
        assert(entries.drop_last()[0] == entries[0]);
        assert(encode_entries(entries) =~= encode_entry(entries[0]) + encode_entries(entries.drop_first()));
    }
}

/// Encoded entries read back as themselves, whatever follows them.
proof fn lemma_decode_encoded_entries(entries: Seq<IndexEntryView>, rest: Seq<u8>)
    requires
        ids_fit(entries),
    ensures
        decode_entries(encode_entries(entries) + rest, entries.len()) == Ok::<Seq<IndexEntryView>, IndexDecodeError>(entries),
    decreases entries.len(),
{
    if entries.len() > 0 {
        let tail = entries.drop_first();
        assert forall|i: int| 0 <= i < tail.len() implies #[trigger] encode_utf8(tail[i].id).len() <= u32::MAX by {
            assert(tail[i] == entries[i + 1]);
        }
        lemma_encode_entries_front(entries);
        let after = encode_entries(tail) + rest;
        assert(encode_entries(entries) + rest =~= encode_entry(entries[0]) + after);
        assert(encode_utf8(entries[0].id).len() <= u32::MAX);
        lemma_decode_encoded_entry(entries[0], after);
        assert((encode_entry(entries[0]) + after).skip(encode_entry(entries[0]).len() as int) =~= after);
        lemma_decode_encoded_entries(tail, rest);
        assert(seq![entries[0]] + tail =~= entries);
        assert(decode_entries(encode_entries(entries) + rest, entries.len()) == Ok::<Seq<IndexEntryView>, IndexDecodeError>(
            seq![entries[0]] + tail,
        ));
    } else {
        assert(entries =~= Seq::<IndexEntryView>::empty());
    }
}

/// Writing an index and reading the file back gives the same entries, in the same
/// order, so the same index.
pub proof fn lemma_indices_file_roundtrip(entries: Seq<IndexEntryView>)
    requires
        ids_fit(entries),
        entries.len() <= u64::MAX,
    ensures
        decode_indices(encode_indices(entries)) == Ok::<Seq<IndexEntryView>, IndexDecodeError>(entries),
{
    lemma_auto_spec_u64_to_from_le_bytes();
    let bytes = encode_indices(entries);
    assert(bytes.take(8) =~= spec_u64_to_le_bytes(entries.len() as u64));
    assert(bytes.skip(8) =~= encode_entries(entries) + Seq::<u8>::empty());
    lemma_decode_encoded_entries(entries, Seq::<u8>::empty());
}

impl TableIndex {
    /// Reading back what `encode` writes gives an index with the same records.
    pub proof fn lemma_encode_decode(&self)
        requires
            self.wf(),
            self.entry_seq().len() <= u64::MAX,
        ensures
            decode_indices(encode_indices(self.entry_seq())) matches Ok(entries) && index_map(entries) == self@,
    {
        assert(self.entry_seq().len() == self.entries@.len());
        lemma_indices_file_roundtrip(self.entry_seq());
    }
}

} // verus!
