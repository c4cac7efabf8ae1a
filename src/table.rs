//! The channel table: an insertion-ordered association of channel names to
//! the values recorded under them.

use vstd::prelude::*;

verus! {

/// The mathematical form of a channel table: each channel's name with its
/// values, in the order in which the names were first seen.
pub type Columns<V> = Seq<(Seq<char>, Seq<V>)>;

/// No name occurs twice.
pub open spec fn names_unique<V>(t: Columns<V>) -> bool {
    forall|i: int, j: int|
        0 <= i < t.len() && 0 <= j < t.len() && i != j ==> #[trigger] t[i].0 != #[trigger] t[j].0
}

pub open spec fn has_channel<V>(t: Columns<V>, name: Seq<char>) -> bool {
    exists|i: int| 0 <= i < t.len() && #[trigger] t[i].0 == name
}

/// Where `name` stands in `t`, when it stands there.
pub open spec fn channel_index<V>(t: Columns<V>, name: Seq<char>) -> int {
    choose|i: int| 0 <= i < t.len() && #[trigger] t[i].0 == name
}

/// How many values the channel `name` holds (none when it does not exist).
pub open spec fn channel_len<V>(t: Columns<V>, name: Seq<char>) -> nat {
    if has_channel(t, name) {
        t[channel_index(t, name)].1.len()
    } else {
        0
    }
}

/// The values of the channel `name` (none when it does not exist).
pub open spec fn channel_values<V>(t: Columns<V>, name: Seq<char>) -> Seq<V> {
    if has_channel(t, name) {
        t[channel_index(t, name)].1
    } else {
        Seq::empty()
    }
}

/// The table after `v` is appended to the channel `name`; a new name gets an
/// empty channel at the end first.
pub open spec fn appended<V>(t: Columns<V>, name: Seq<char>, v: V) -> Columns<V> {
    if has_channel(t, name) {
        let i = channel_index(t, name);
        t.update(i, (name, t[i].1.push(v)))
    } else {
        t.push((name, seq![v]))
    }
}

/// The names of the channels, in table order.
pub open spec fn names_of<V>(t: Columns<V>) -> Seq<Seq<char>> {
    t.map_values(|c: (Seq<char>, Seq<V>)| c.0)
}

/// Every channel holds `n` or `n + 1` values, for one common `n`.
pub open spec fn balanced<V>(t: Columns<V>) -> bool {
    forall|i: int, j: int|
        0 <= i < t.len() && 0 <= j < t.len() ==> #[trigger] t[i].1.len() <= #[trigger] t[j].1.len()
            + 1
}

/// Some channel holds two values or more: a second sample round has begun.
pub open spec fn second_round_started<V>(t: Columns<V>) -> bool {
    exists|i: int| 0 <= i < t.len() && #[trigger] t[i].1.len() >= 2
}

/// The name of the heartbeat channel.
pub open spec fn sample_name() -> Seq<char> {
    seq!['s', 'a', 'm', 'p', 'l', 'e']
}

/// Why a table is not well aligned.
#[derive(Clone, Copy, Debug, PartialEq, Eq, Structural)]
pub enum ImbalanceError {
    /// Two channels differ in length by more than one value.
    UnequalLengths,
    /// A second sample round has begun but no channel is named `sample`.
    MissingSampleChannel,
}

/// The outcome of checking a table's alignment.
pub open spec fn alignment<V>(t: Columns<V>) -> Result<(), ImbalanceError> {
    if !balanced(t) {
        Err(ImbalanceError::UnequalLengths)
    } else if second_round_started(t) && !has_channel(t, sample_name()) {
        Err(ImbalanceError::MissingSampleChannel)
    } else {
        Ok(())
    }
}

/// The length of the longest channel (zero for a table without channels).
pub open spec fn max_len<V>(t: Columns<V>) -> nat
    decreases t.len(),
{
    if t.len() == 0 {
        0
    } else {
        let m = max_len(t.drop_last());
        let l = t.last().1.len();
        if l > m {
            l
        } else {
            m
        }
    }
}

/// The value of channel `c` in row `r`, if it has one.
pub open spec fn cell<V>(t: Columns<V>, r: int, c: int) -> Option<V> {
    if r < t[c].1.len() {
        Some(t[c].1[r])
    } else {
        None
    }
}

/// `rows` is the body of the table as text: one row per index up to the
/// longest channel, one cell per channel, holding what `format` gives for the
/// value there, or nothing where the channel has no value.
pub open spec fn text_rows_of<V, F: Fn(V) -> String>(
    t: Columns<V>,
    format: F,
    rows: Seq<Vec<String>>,
) -> bool {
    &&& rows.len() == max_len(t)
    &&& forall|r: int| 0 <= r < rows.len() ==> #[trigger] rows[r]@.len() == t.len()
    &&& forall|r: int, c: int|
        0 <= r < rows.len() && 0 <= c < t.len() ==> match cell(t, r, c) {
            Some(v) => call_ensures(format, (v,), #[trigger] rows[r]@[c]),
            None => rows[r]@[c]@ == Seq::<char>::empty(),
        }
}

/// A channel: its name and the values recorded under it.
struct Channel<V> {
    name: String,
    values: Vec<V>,
}

/// Channels in first-insertion order, names unique.
pub struct ChannelTable<V> {
    channels: Vec<Channel<V>>,
}

impl<V> View for ChannelTable<V> {
    type V = Columns<V>;

    closed spec fn view(&self) -> Columns<V> {
        self.channels@.map_values(|c: Channel<V>| (c.name@, c.values@))
    }
}

pub proof fn lemma_index_of_unique<V>(t: Columns<V>, i: int)
    requires
        names_unique(t),
        0 <= i < t.len(),
    ensures
        has_channel(t, t[i].0),
        channel_index(t, t[i].0) == i,
{
    assert(t[i].0 == t[i].0);
}

/// Appending to one channel adds one value to it and leaves the others as
/// they were.
pub proof fn lemma_appended_lengths<V>(t: Columns<V>, name: Seq<char>, v: V)
    requires
        names_unique(t),
    ensures
        names_unique(appended(t, name, v)),
        has_channel(appended(t, name, v), name),
        channel_len(appended(t, name, v), name) == channel_len(t, name) + 1,
        channel_values(appended(t, name, v), name) == channel_values(t, name).push(v),
        forall|other: Seq<char>|
            other != name ==> #[trigger] channel_values(appended(t, name, v), other)
                == channel_values(t, other),
        forall|other: Seq<char>|
            other != name ==> #[trigger] channel_len(appended(t, name, v), other)
                == channel_len(t, other),
        forall|other: Seq<char>|
            #[trigger] has_channel(appended(t, name, v), other) ==> has_channel(t, other) || other
                == name,
        names_of(appended(t, name, v)) == if has_channel(t, name) {
            names_of(t)
        } else {
            names_of(t).push(name)
        },
{
    let a = appended(t, name, v);
    assert forall|other: Seq<char>| #[trigger] has_channel(a, other) implies has_channel(t, other)
        || other == name by {
        let j = choose|j: int| 0 <= j < a.len() && #[trigger] a[j].0 == other;
        if j < t.len() && other != name {
            assert(t[j].0 == other);
        }
    }
    if has_channel(t, name) {
        let i = channel_index(t, name);
        lemma_index_of_unique(a, i);
        assert(names_of(a) =~= names_of(t));
    } else {
        lemma_index_of_unique(a, t.len() as int);
        assert(names_of(a) =~= names_of(t).push(name));
    }
    assert forall|other: Seq<char>|
        #![trigger channel_len(a, other)]
        #![trigger channel_values(a, other)]
        other != name implies channel_len(a, other) == channel_len(t, other) && channel_values(
            a,
            other,
        ) == channel_values(t, other) by {
        if has_channel(t, other) {
            let j = channel_index(t, other);
            lemma_index_of_unique(a, j);
        } else {
            assert(!has_channel(a, other));
        }
    }
}

pub proof fn lemma_max_len<V>(t: Columns<V>)
    ensures
        forall|i: int| 0 <= i < t.len() ==> #[trigger] t[i].1.len() <= max_len(t),
        t.len() > 0 ==> exists|i: int| 0 <= i < t.len() && #[trigger] t[i].1.len() == max_len(t),
        t.len() == 0 ==> max_len(t) == 0,
    decreases t.len(),
{
    if t.len() > 0 {
        let d = t.drop_last();
        lemma_max_len(d);
        assert forall|i: int| 0 <= i < t.len() implies #[trigger] t[i].1.len() <= max_len(t) by {
            if i < d.len() {
                assert(d[i] == t[i]);
            }
        }
        if t.last().1.len() > max_len(d) {
            assert(t[t.len() - 1].1.len() == max_len(t));
        } else if d.len() > 0 {
            let j = choose|j: int| 0 <= j < d.len() && #[trigger] d[j].1.len() == max_len(d);
            assert(t[j] == d[j]);
        } else {
            assert(t[0].1.len() == max_len(t));
        }
    }
}

/// A bound that every channel meets and one attains is the longest length.
pub proof fn lemma_max_len_is<V>(t: Columns<V>, m: nat)
    requires
        forall|i: int| 0 <= i < t.len() ==> #[trigger] t[i].1.len() <= m,
        t.len() > 0 ==> exists|i: int| 0 <= i < t.len() && #[trigger] t[i].1.len() == m,
        t.len() == 0 ==> m == 0,
    ensures
        max_len(t) == m,
{
    lemma_max_len(t);
    if t.len() > 0 {
        let i = choose|i: int| 0 <= i < t.len() && #[trigger] t[i].1.len() == m;
        let j = choose|j: int| 0 <= j < t.len() && #[trigger] t[j].1.len() == max_len(t);
        assert(t[i].1.len() <= max_len(t));
        assert(t[j].1.len() <= m);
    }
}

impl<V> ChannelTable<V> {
    /// A table without channels.
    pub fn new() -> (t: Self)
        ensures
            t@ == Seq::<(Seq<char>, Seq<V>)>::empty(),
    {
        let t = ChannelTable { channels: Vec::new() };
        assert(t@ =~= Seq::<(Seq<char>, Seq<V>)>::empty());
        t
    }

    pub fn num_channels(&self) -> (n: usize)
        ensures
            n == self@.len(),
    {
        self.channels.len()
    }

    pub fn name(&self, c: usize) -> (s: &String)
        requires
            c < self@.len(),
        ensures
            s@ == self@[c as int].0,
    {
        &self.channels[c].name
    }

    pub fn values(&self, c: usize) -> (v: &Vec<V>)
        requires
            c < self@.len(),
        ensures
            v@ == self@[c as int].1,
    {
        &self.channels[c].values
    }

    /// The position of the channel `name`.
    pub fn find(&self, name: &String) -> (r: Option<usize>)
        ensures
            match r {
                Some(i) => i < self@.len() && self@[i as int].0 == name@,
                None => !has_channel(self@, name@),
            },
    {
        let mut i: usize = 0;
        while i < self.channels.len()
            invariant
                i <= self@.len(),
                self@.len() == self.channels@.len(),
                forall|j: int| 0 <= j < i ==> #[trigger] self@[j].0 != name@,
            decreases self.channels.len() - i,
        {
            if self.channels[i].name == *name {
                return Some(i);
            }
            i = i + 1;
        }
        None
    }

    /// The channel names, in table order.
    pub fn names(&self) -> (r: Vec<String>)
        ensures
            r.deep_view() == names_of(self@),
    {
        let mut r: Vec<String> = Vec::new();
        let mut i: usize = 0;
        while i < self.channels.len()
            invariant
                i <= self@.len(),
                self@.len() == self.channels@.len(),
                r.deep_view() =~= names_of(self@).take(i as int),
            decreases self.channels.len() - i,
        {
            let name = self.channels[i].name.clone();
            assert(name@ == self@[i as int].0);
            let ghost before = r;
            r.push(name);
            assert(r.deep_view().len() == before.deep_view().len() + 1);
            assert(r.deep_view()[i as int] == name@);
            assert forall|k: int| 0 <= k < i implies r.deep_view()[k] == before.deep_view()[k] by {
                assert(r@[k] == before@[k]);
            }
            i = i + 1;
            assert(r.deep_view() =~= names_of(self@).take(i as int));
        }
        assert(names_of(self@).take(i as int) =~= names_of(self@));
        r
    }

    /// Adds a channel named `name` holding `values` at the end.
    pub fn add_channel(&mut self, name: String, values: Vec<V>)
        requires
            names_unique(old(self)@),
            !has_channel(old(self)@, name@),
        ensures
            final(self)@ == old(self)@.push((name@, values@)),
            names_unique(final(self)@),
    {
        self.channels.push(Channel { name, values });
        assert(self@ =~= old(self)@.push((name@, values@)));
        assert forall|i: int, j: int|
            0 <= i < self@.len() && 0 <= j < self@.len() && i != j implies #[trigger] self@[i].0
            != #[trigger] self@[j].0 by {
            if i == old(self)@.len() {
                assert(old(self)@[j].0 == self@[j].0);
            } else if j == old(self)@.len() {
                assert(old(self)@[i].0 == self@[i].0);
            }
        }
    }

    /// The body of the table as text, each value written by `format` and a
    /// blank cell where a channel has no value for the row.
    pub fn text_rows<F: Fn(V) -> String>(&self, format: &F) -> (rows: Vec<Vec<String>>) where
        V: Copy,
        requires
            forall|v: V| call_requires(*format, (v,)),
        ensures
            text_rows_of(self@, *format, rows@),
    {
        let m = self.max_len();
        let n = self.channels.len();
        let mut rows: Vec<Vec<String>> = Vec::new();
        let mut r: usize = 0;
        while r < m
            invariant
                m == max_len(self@),
                n == self@.len(),
                n == self.channels@.len(),
                r <= m,
                rows@.len() == r,
                forall|v: V| call_requires(*format, (v,)),
                forall|k: int| 0 <= k < r ==> #[trigger] rows@[k]@.len() == n,
                forall|k: int, c: int|
                    0 <= k < r && 0 <= c < n ==> match cell(self@, k, c) {
                        Some(v) => call_ensures(*format, (v,), #[trigger] rows@[k]@[c]),
                        None => rows@[k]@[c]@ == Seq::<char>::empty(),
                    },
            decreases m - r,
        {
            let mut row: Vec<String> = Vec::new();
            let mut c: usize = 0;
            while c < n
                invariant
                    n == self@.len(),
                    n == self.channels@.len(),
                    c <= n,
                    row@.len() == c,
                    forall|v: V| call_requires(*format, (v,)),
                    forall|j: int|
                        0 <= j < c ==> match cell(self@, r as int, j) {
                            Some(v) => call_ensures(*format, (v,), #[trigger] row@[j]),
                            None => row@[j]@ == Seq::<char>::empty(),
                        },
                decreases n - c,
            {
                let values = &self.channels[c].values;
                assert(values@ == self@[c as int].1);
                if r < values.len() {
                    let text = format(values[r]);
                    row.push(text);
                } else {
                    row.push(String::new());
                }
                c = c + 1;
            }
            rows.push(row);
            r = r + 1;
        }
        rows
    }

    /// The length of the longest channel.
    pub fn max_len(&self) -> (m: usize)
        ensures
            m == max_len(self@),
    {
        let mut hi: usize = 0;
        let mut i: usize = 0;
        while i < self.channels.len()
            invariant
                i <= self@.len(),
                self@.len() == self.channels@.len(),
                forall|j: int| 0 <= j < i ==> #[trigger] self@[j].1.len() <= hi,
                i > 0 ==> exists|j: int| 0 <= j < i && #[trigger] self@[j].1.len() == hi,
                i == 0 ==> hi == 0,
            decreases self.channels.len() - i,
        {
            let l = self.channels[i].values.len();
            assert(self@[i as int].1.len() == l);
            if i == 0 || l > hi {
                hi = l;
            }
            i = i + 1;
        }
        proof {
            lemma_max_len_is(self@, hi as nat);
        }
        hi
    }

    /// Checks that every channel holds `n` or `n + 1` values for a common `n`,
    /// and that a channel named `sample` exists once a second round has begun.
    pub fn alignment(&self) -> (r: Result<(), ImbalanceError>)
        ensures
            r == alignment(self@),
    {
        let n = self.channels.len();
        if n == 0 {
            return Ok(());
        }
        let mut lo: usize = self.channels[0].values.len();
        let mut hi: usize = lo;
        let ghost mut ilo: int = 0;
        let ghost mut ihi: int = 0;
        let mut i: usize = 1;
        while i < n
            invariant
                n == self@.len(),
                n == self.channels@.len(),
                1 <= i <= n,
                forall|j: int| 0 <= j < i ==> lo <= #[trigger] self@[j].1.len() <= hi,
                0 <= ilo < i,
                0 <= ihi < i,
                self@[ilo].1.len() == lo,
                self@[ihi].1.len() == hi,
            decreases n - i,
        {
            let l = self.channels[i].values.len();
            assert(self@[i as int].1.len() == l);
            if l < lo {
                lo = l;
                proof {
                    ilo = i as int;
                }
            }
            if l > hi {
                hi = l;
                proof {
                    ihi = i as int;
                }
            }
            i = i + 1;
        }
        if hi - lo > 1 {
            assert(self@[ihi].1.len() > self@[ilo].1.len() + 1);
            return Err(ImbalanceError::UnequalLengths);
        }
        assert(balanced(self@));
        if hi >= 2 {
            let key = "sample".to_owned();
            proof {
                reveal_strlit("sample");
                assert(key@ =~= sample_name());
                assert(self@[ihi].1.len() >= 2);
            }
            if self.find(&key).is_none() {
                return Err(ImbalanceError::MissingSampleChannel);
            }
        } else {
            assert(!second_round_started(self@));
        }
        Ok(())
    }

    /// Appends `v` to the channel `name`, creating that channel at the end
    /// when it is new; returns how many values the channel then holds.
    pub fn push_value(&mut self, name: String, v: V) -> (n: usize)
        requires
            names_unique(old(self)@),
        ensures
            final(self)@ == appended(old(self)@, name@, v),
            names_unique(final(self)@),
            n == channel_len(final(self)@, name@),
            n == channel_len(old(self)@, name@) + 1,
    {
        proof {
            lemma_appended_lengths(self@, name@, v);
        }
        match self.find(&name) {
            Some(i) => {
                proof {
                    lemma_index_of_unique(self@, i as int);
                }
                let mut ch = self.channels.remove(i);
                ch.values.push(v);
                let n = ch.values.len();
                self.channels.insert(i, ch);
                assert(self@ =~= appended(old(self)@, name@, v));
                n
            },
            None => {
                let mut values = Vec::new();
                values.push(v);
                self.channels.push(Channel { name, values });
                assert(self@ =~= appended(old(self)@, name@, v));
                1
            },
        }
    }
}

} // verus!
