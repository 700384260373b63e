//! Small tables that keep one row per key, in the order in which the keys were
//! first seen.

use crate::text::same_text;
use vstd::prelude::*;

verus! {

/// Whether row `i` is the row of `key`.
pub open spec fn row_at<K, V>(rows: Seq<(K, V)>, key: K, i: int) -> bool {
    0 <= i < rows.len() && rows[i].0 == key
}

/// Whether `key` has a row.
pub open spec fn has_key<K, V>(rows: Seq<(K, V)>, key: K) -> bool {
    exists|i: int| row_at(rows, key, i)
}

/// Where the row of `key` stands.
pub open spec fn place<K, V>(rows: Seq<(K, V)>, key: K) -> int {
    choose|i: int| row_at(rows, key, i)
}

/// What the table holds for `key`.
pub open spec fn lookup<K, V>(rows: Seq<(K, V)>, key: K) -> Option<V> {
    if has_key(rows, key) {
        Some(rows[place(rows, key)].1)
    } else {
        None
    }
}

/// The table with `value` for `key`: in the row that `key` has, or in a new row
/// at the end.
pub open spec fn put<K, V>(rows: Seq<(K, V)>, key: K, value: V) -> Seq<(K, V)> {
    if has_key(rows, key) {
        rows.update(place(rows, key), (key, value))
    } else {
        rows.push((key, value))
    }
}

/// Whether no key has two rows.
pub open spec fn distinct<K, V>(rows: Seq<(K, V)>) -> bool {
    forall|i: int, j: int| 0 <= i < j < rows.len() ==> rows[i].0 != rows[j].0
}

/// With one row per key, the row found is the row chosen.
pub proof fn lemma_place<K, V>(rows: Seq<(K, V)>, key: K, i: int)
    requires
        distinct(rows),
        row_at(rows, key, i),
    ensures
        has_key(rows, key),
        place(rows, key) == i,
        lookup(rows, key) == Some(rows[i].1),
{
    let j = place(rows, key);
    assert(row_at(rows, key, j));
    if i < j {
        assert(rows[i].0 != rows[j].0);
    } else if j < i {
        assert(rows[j].0 != rows[i].0);
    }
}

/// Writing a key changes what that key holds and nothing else, and keeps one
/// row per key.
pub proof fn lemma_put<K, V>(rows: Seq<(K, V)>, key: K, value: V)
    requires
        distinct(rows),
    ensures
        distinct(put(rows, key, value)),
        lookup(put(rows, key, value), key) == Some(value),
        forall|other: K|
            other != key ==> #[trigger] lookup(put(rows, key, value), other) == lookup(rows, other),
{
    let after = put(rows, key, value);
    if has_key(rows, key) {
        assert(row_at(rows, key, place(rows, key)));
        assert(row_at(after, key, place(rows, key)));
        lemma_place(after, key, place(rows, key));
    } else {
        assert forall|i: int| 0 <= i < rows.len() implies rows[i].0 != key by {
            if rows[i].0 == key {
                assert(row_at(rows, key, i));
            }
        }
        assert(row_at(after, key, rows.len() as int));
        lemma_place(after, key, rows.len() as int);
    }
    assert forall|other: K| other != key implies #[trigger] lookup(after, other) == lookup(
        rows,
        other,
    ) by {
        if has_key(rows, other) {
            let i = place(rows, other);
            assert(row_at(rows, other, i));
            assert(row_at(after, other, i));
            lemma_place(after, other, i);
        } else if has_key(after, other) {
            let i = place(after, other);
            assert(row_at(after, other, i));
            assert(row_at(rows, other, i));
        }
    }
}

/// One value per name.
#[derive(Debug, Clone)]
pub struct Table<V> {
    pub rows: Vec<(String, V)>,
}

impl<V: View> View for Table<V> {
    type V = Seq<(Seq<char>, V::V)>;

    open spec fn view(&self) -> Seq<(Seq<char>, V::V)> {
        table_view(self.rows@)
    }
}

/// The rows of a table by their views.
pub open spec fn table_view<V: View>(rows: Seq<(String, V)>) -> Seq<(Seq<char>, V::V)> {
    rows.map_values(|row: (String, V)| (row.0@, row.1@))
}

impl<V: View> Table<V> {
    pub fn new() -> (r: Self)
        ensures
            r@ == Seq::<(Seq<char>, V::V)>::empty(),
            distinct(r@),
    {
        let r = Table { rows: Vec::new() };
        assert(r@ =~= Seq::<(Seq<char>, V::V)>::empty());
        r
    }

    /// Where the row of `name` stands.
    pub fn find(&self, name: &str) -> (r: Option<usize>)
        requires
            distinct(self@),
        ensures
            match r {
                Some(i) => row_at(self@, name@, i as int) && has_key(self@, name@) && place(
                    self@,
                    name@,
                ) == i,
                None => !has_key(self@, name@),
            },
    {
        let mut i: usize = 0;
        while i < self.rows.len()
            invariant
                i <= self.rows.len(),
                distinct(self@),
                forall|k: int| 0 <= k < i ==> !row_at(self@, name@, k),
            decreases self.rows.len() - i,
        {
            if same_text(self.rows[i].0.as_str(), name) {
                proof {
                    lemma_place(self@, name@, i as int);
                }
                return Some(i);
            }
            i = i + 1;
        }
        None
    }

    /// What the table holds for `name`.
    pub fn get(&self, name: &str) -> (r: Option<&V>)
        requires
            distinct(self@),
        ensures
            match r {
                Some(value) => lookup(self@, name@) == Some(value@),
                None => lookup(self@, name@) is None,
            },
    {
        match self.find(name) {
            Some(i) => Some(&self.rows[i].1),
            None => None,
        }
    }

    /// Sets what the table holds for `name`.
    pub fn set(&mut self, name: &str, value: V)
        requires
            distinct(old(self)@),
        ensures
            final(self)@ == put(old(self)@, name@, value@),
            distinct(final(self)@),
    {
        proof {
            lemma_put(self@, name@, value@);
        }
        match self.find(name) {
            Some(i) => {
                let row = (name.to_owned(), value);
                self.rows.set(i, row);
                assert(self@ =~= put(old(self)@, name@, value@));
            },
            None => {
                let row = (name.to_owned(), value);
                self.rows.push(row);
                assert(self@ =~= put(old(self)@, name@, value@));
            },
        }
    }
}

/// What a [`Tally`] counts under: a device and a reason.
pub type CountKey = (Seq<char>, Seq<char>);

/// The rows of a [`Tally`].
pub type Counts = Seq<(CountKey, u64)>;

/// One count per device and reason.
#[derive(Debug, Clone)]
pub struct Tally {
    pub rows: Vec<(String, String, u64)>,
}

impl View for Tally {
    type V = Counts;

    open spec fn view(&self) -> Counts {
        tally_view(self.rows@)
    }
}

/// The rows of a tally by their views.
pub open spec fn tally_view(rows: Seq<(String, String, u64)>) -> Counts {
    rows.map_values(|row: (String, String, u64)| ((row.0@, row.1@), row.2))
}

/// How often `key` was counted.
pub open spec fn counted(rows: Counts, key: CountKey) -> u64 {
    match lookup(rows, key) {
        Some(n) => n,
        None => 0,
    }
}

/// The tally with one more for `key`.
pub open spec fn bumped(
    rows: Counts,
    key: CountKey,
) -> Counts {
    put(rows, key, (counted(rows, key) + 1) as u64)
}

/// The tally with a row for `key`, which begins at zero.
pub open spec fn seeded(
    rows: Counts,
    key: CountKey,
) -> Counts {
    if has_key(rows, key) {
        rows
    } else {
        rows.push((key, 0u64))
    }
}

/// Whether every count can still grow by `n`.
pub open spec fn has_room(rows: Counts, n: nat) -> bool {
    &&& n <= u64::MAX
    &&& forall|i: int| 0 <= i < rows.len() ==> (#[trigger] rows[i]).1 + n <= u64::MAX
}

/// One more for `key` is one more for that key alone.
pub proof fn lemma_bumped(
    rows: Counts,
    key: CountKey,
)
    requires
        distinct(rows),
        counted(rows, key) < u64::MAX,
    ensures
        distinct(bumped(rows, key)),
        counted(bumped(rows, key), key) == counted(rows, key) + 1,
        forall|other: CountKey|
            other != key ==> #[trigger] counted(bumped(rows, key), other) == counted(rows, other),
{
    lemma_put(rows, key, (counted(rows, key) + 1) as u64);
}

/// Seeding gives a key that has no row a zero, and changes nothing else.
pub proof fn lemma_seeded(
    rows: Counts,
    key: CountKey,
)
    requires
        distinct(rows),
    ensures
        distinct(seeded(rows, key)),
        has_key(seeded(rows, key), key),
        forall|other: CountKey|
            #[trigger] counted(seeded(rows, key), other) == counted(rows, other),
        forall|other: CountKey|
            has_key(rows, other) ==> #[trigger] has_key(seeded(rows, key), other),
{
    lemma_put(rows, key, 0u64);
    if !has_key(rows, key) {
        assert(seeded(rows, key) == put(rows, key, 0u64));
        assert(row_at(seeded(rows, key), key, rows.len() as int));
        assert forall|other: CountKey|
            #[trigger] counted(seeded(rows, key), other) == counted(rows, other) by {
            if other != key {
                assert(lookup(put(rows, key, 0u64), other) == lookup(rows, other));
            }
        }
        assert forall|other: CountKey| has_key(rows, other) implies #[trigger] has_key(
            seeded(rows, key),
            other,
        ) by {
            let i = place(rows, other);
            assert(row_at(rows, other, i));
            assert(row_at(seeded(rows, key), other, i));
        }
    }
}

impl Tally {
    pub fn new() -> (r: Self)
        ensures
            r@ == Counts::empty(),
            distinct(r@),
            has_room(r@, u64::MAX as nat),
    {
        let r = Tally { rows: Vec::new() };
        assert(r@ =~= Counts::empty());
        r
    }

    fn find(&self, device: &str, reason: &str) -> (r: Option<usize>)
        requires
            distinct(self@),
        ensures
            match r {
                Some(i) => row_at(self@, (device@, reason@), i as int) && has_key(
                    self@,
                    (device@, reason@),
                ) && place(self@, (device@, reason@)) == i && lookup(self@, (device@, reason@))
                    == Some(self.rows@[i as int].2),
                None => !has_key(self@, (device@, reason@)),
            },
    {
        let mut i: usize = 0;
        while i < self.rows.len()
            invariant
                i <= self.rows.len(),
                distinct(self@),
                forall|k: int| 0 <= k < i ==> !row_at(self@, (device@, reason@), k),
            decreases self.rows.len() - i,
        {
            if same_text(self.rows[i].0.as_str(), device) && same_text(
                self.rows[i].1.as_str(),
                reason,
            ) {
                proof {
                    lemma_place(self@, (device@, reason@), i as int);
                }
                return Some(i);
            }
            i = i + 1;
        }
        None
    }

    /// Counts `device` once more for `reason`.
    pub fn bump(&mut self, device: &str, reason: &str)
        requires
            distinct(old(self)@),
            counted(old(self)@, (device@, reason@)) < u64::MAX,
        ensures
            final(self)@ == bumped(old(self)@, (device@, reason@)),
            distinct(final(self)@),
    {
        proof {
            lemma_bumped(self@, (device@, reason@));
        }
        match self.find(device, reason) {
            Some(i) => {
                let n: u64 = self.rows[i].2;
                let row = (device.to_owned(), reason.to_owned(), n + 1);
                self.rows.set(i, row);
                assert(self@ =~= bumped(old(self)@, (device@, reason@)));
            },
            None => {
                let row = (device.to_owned(), reason.to_owned(), 1u64);
                self.rows.push(row);
                assert(self@ =~= bumped(old(self)@, (device@, reason@)));
            },
        }
    }

    /// Gives `device` a row for `reason`, which begins at zero.
    pub fn seed(&mut self, device: &str, reason: &str)
        requires
            distinct(old(self)@),
        ensures
            final(self)@ == seeded(old(self)@, (device@, reason@)),
            distinct(final(self)@),
    {
        proof {
            lemma_seeded(self@, (device@, reason@));
        }
        if self.find(device, reason).is_none() {
            let row = (device.to_owned(), reason.to_owned(), 0u64);
            self.rows.push(row);
            assert(self@ =~= seeded(old(self)@, (device@, reason@)));
        }
    }

    /// The rows once more.
    pub fn copied(&self) -> (r: Vec<(String, String, u64)>)
        ensures
            tally_view(r@) == self@,
    {
        let rows = &self.rows;
        let mut out: Vec<(String, String, u64)> = Vec::new();
        let mut i: usize = 0;
        assert(tally_view(out@) =~= tally_view(rows@.take(0)));
        while i < rows.len()
            invariant
                i <= rows.len(),
                tally_view(out@) == tally_view(rows@.take(i as int)),
            decreases rows.len() - i,
        {
            let row = (rows[i].0.as_str().to_owned(), rows[i].1.as_str().to_owned(), rows[i].2);
            let ghost before = tally_view(out@);
            let ghost shown = ((rows@[i as int].0@, rows@[i as int].1@), rows@[i as int].2);
            out.push(row);
            assert(tally_view(out@) =~= before.push(shown));
            assert(tally_view(rows@.take(i + 1)) =~= tally_view(rows@.take(i as int)).push(shown));
            i = i + 1;
        }
        assert(rows@.take(rows@.len() as int) =~= rows@);
        out
    }

    /// Whether every count can still grow by `n`.
    pub fn roomy(&self, n: u64) -> (r: bool)
        ensures
            r == has_room(self@, n as nat),
    {
        let mut i: usize = 0;
        while i < self.rows.len()
            invariant
                i <= self.rows.len(),
                forall|k: int| 0 <= k < i ==> (#[trigger] self@[k]).1 + n <= u64::MAX,
            decreases self.rows.len() - i,
        {
            assert(self@[i as int].1 == self.rows@[i as int].2);
            if self.rows[i].2 > u64::MAX - n {
                return false;
            }
            i = i + 1;
        }
        true
    }
}

/// In a tally that has room, every count can grow, rows that are still to come
/// as well, and there is room for one less afterwards.
pub proof fn lemma_room(rows: Counts, key: CountKey, n: nat)
    requires
        has_room(rows, n),
        n > 0,
    ensures
        counted(rows, key) < u64::MAX,
        has_room(bumped(rows, key), (n - 1) as nat),
{
    if has_key(rows, key) {
        assert(row_at(rows, key, place(rows, key)));
    }
}

} // verus!
