//! Properties that relate several calls of the recorder and the codec.

use vstd::prelude::*;
use crate::codec::{columns_of, parsed_as, parses_to};
use crate::recorder::SampleLogger;
use crate::table::{
    alignment, appended, balanced, cell, channel_index, channel_len, channel_values, has_channel,
    lemma_appended_lengths, lemma_index_of_unique, lemma_max_len_is, names_of, names_unique,
    sample_name, second_round_started, text_rows_of, Columns, ImbalanceError,
};

verus! {

/// The table after the writes `w` (name, value), in order.
pub open spec fn append_all<V>(t: Columns<V>, w: Seq<(Seq<char>, V)>) -> Columns<V>
    decreases w.len(),
{
    if w.len() == 0 {
        t
    } else {
        appended(append_all(t, w.drop_last()), w.last().0, w.last().1)
    }
}

/// The names written by `w`, in order.
pub open spec fn written_names<V>(w: Seq<(Seq<char>, V)>) -> Seq<Seq<char>> {
    w.map_values(|p: (Seq<char>, V)| p.0)
}

proof fn lemma_prefix_lengths<V>(t: Columns<V>, w: Seq<(Seq<char>, V)>)
    requires
        names_unique(t),
        written_names(w).no_duplicates(),
    ensures
        names_unique(append_all(t, w)),
        forall|name: Seq<char>|
            #[trigger] has_channel(append_all(t, w), name) ==> has_channel(t, name)
                || written_names(w).contains(name),
        forall|name: Seq<char>|
            #[trigger] channel_len(append_all(t, w), name) == channel_len(t, name) + if written_names(
                w,
            ).contains(name) {
                1nat
            } else {
                0nat
            },
    decreases w.len(),
{
    if w.len() > 0 {
        let d = w.drop_last();
        assert(written_names(d) =~= written_names(w).drop_last());
        assert(written_names(d).no_duplicates());
        lemma_prefix_lengths(t, d);
        let a = append_all(t, d);
        lemma_appended_lengths(a, w.last().0, w.last().1);
        assert(written_names(w) =~= written_names(d).push(w.last().0));
        assert forall|name: Seq<char>| #[trigger] has_channel(append_all(t, w), name) implies has_channel(t, name)
            || written_names(w).contains(name) by {
            if has_channel(a, name) {
                if written_names(d).contains(name) {
                    let j = choose|j: int| 0 <= j < written_names(d).len() && written_names(d)[j] == name;
                    assert(written_names(w)[j] == name);
                }
            } else {
                assert(written_names(w)[w.len() - 1] == name);
            }
        }
        assert forall|name: Seq<char>|
            #[trigger] channel_len(append_all(t, w), name) == channel_len(t, name) + if written_names(
                w,
            ).contains(name) {
                1nat
            } else {
                0nat
            } by {
            let last = w.last().0;
            assert(written_names(w) =~= written_names(d).push(last));
            if name == last {
                assert(written_names(w)[w.len() - 1] == last);
                if written_names(d).contains(name) {
                    let j = choose|j: int|
                        0 <= j < written_names(d).len() && written_names(d)[j] == name;
                    assert(written_names(w)[j] == name);
                }
            } else {
                if written_names(w).contains(name) {
                    let j = choose|j: int|
                        0 <= j < written_names(w).len() && written_names(w)[j] == name;
                    assert(written_names(d)[j] == name);
                }
            }
        }
    }
}

/// One full sample round (each channel written exactly once, the `sample`
/// channel among them; new channels only in the first round) keeps the table
/// aligned after every write, and leaves every channel one value longer.
pub proof fn lemma_full_round_stays_aligned<V>(t: Columns<V>, n: nat, round: Seq<(Seq<char>, V)>)
    requires
        names_unique(t),
        forall|c: int| 0 <= c < t.len() ==> #[trigger] t[c].1.len() == n,
        written_names(round).no_duplicates(),
        written_names(round).contains(sample_name()),
        forall|c: int| 0 <= c < t.len() ==> written_names(round).contains(#[trigger] t[c].0),
        n > 0 ==> forall|k: int| 0 <= k < round.len() ==> has_channel(t, #[trigger] round[k].0),
    ensures
        forall|k: int|
            0 <= k <= round.len() ==> #[trigger] alignment(append_all(t, round.take(k))) == Ok::<
                (),
                ImbalanceError,
            >(()),
        forall|c: int|
            0 <= c < append_all(t, round).len() ==> #[trigger] append_all(t, round)[c].1.len() == n
                + 1,
{
    assert forall|k: int| 0 <= k <= round.len() implies #[trigger] alignment(
        append_all(t, round.take(k)),
    ) == Ok::<(), ImbalanceError>(()) by {
        let w = round.take(k);
        assert(written_names(w) =~= written_names(round).take(k));
        lemma_prefix_lengths(t, w);
        let a = append_all(t, w);
        assert forall|c: int| 0 <= c < a.len() implies n <= #[trigger] a[c].1.len() <= n + 1
            && (a[c].1.len() == n + 1 || has_channel(t, a[c].0)) by {
            lemma_index_of_unique(a, c);
            let name = a[c].0;
            assert(a[c].1.len() == channel_len(a, name));
            if has_channel(t, name) {
                let j = channel_index(t, name);
                lemma_index_of_unique(t, j);
            } else {
                assert(has_channel(a, name));
                assert(written_names(w).contains(name));
                let j = choose|j: int| 0 <= j < written_names(w).len() && written_names(w)[j] == name;
                assert(round[j].0 == name);
                assert(n == 0);
            }
        }
        assert(balanced(a));
        if second_round_started(a) {
            let c = choose|c: int| 0 <= c < a.len() && #[trigger] a[c].1.len() >= 2;
            assert(n >= 1);
            let s = choose|j: int|
                0 <= j < written_names(round).len() && written_names(round)[j] == sample_name();
            assert(has_channel(t, round[s].0));
            let i = channel_index(t, sample_name());
            lemma_index_of_unique(t, i);
            assert(channel_len(a, sample_name()) >= n);
        }
    }
    let w = round;
    assert(round.take(round.len() as int) =~= round);
    lemma_prefix_lengths(t, w);
    let a = append_all(t, w);
    assert forall|c: int| 0 <= c < a.len() implies #[trigger] a[c].1.len() == n + 1 by {
        lemma_index_of_unique(a, c);
        let name = a[c].0;
        assert(a[c].1.len() == channel_len(a, name));
        if has_channel(t, name) {
            let j = channel_index(t, name);
            lemma_index_of_unique(t, j);
            assert(written_names(w).contains(t[j].0));
            assert(channel_len(t, name) == n);
        } else {
            assert(has_channel(a, name));
            assert(written_names(w).contains(name));
            let j = choose|j: int| 0 <= j < written_names(w).len() && written_names(w)[j] == name;
            assert(round[j].0 == name);
            assert(n == 0);
        }
    }
}

/// The table after the rounds of writes, one after another.
pub open spec fn append_rounds<V>(t: Columns<V>, rounds: Seq<Seq<(Seq<char>, V)>>) -> Columns<V>
    decreases rounds.len(),
{
    if rounds.len() == 0 {
        t
    } else {
        append_all(append_rounds(t, rounds.drop_last()), rounds.last())
    }
}

/// Each round writes every name of `names` exactly once, and nothing else.
pub open spec fn full_rounds<V>(names: Seq<Seq<char>>, rounds: Seq<Seq<(Seq<char>, V)>>) -> bool {
    forall|j: int|
        0 <= j < rounds.len() ==> {
            &&& written_names(#[trigger] rounds[j]).no_duplicates()
            &&& forall|x: Seq<char>|
                written_names(rounds[j]).contains(x) <==> #[trigger] names.contains(x)
        }
}

proof fn lemma_rounds_state<V>(names: Seq<Seq<char>>, rounds: Seq<Seq<(Seq<char>, V)>>, j: int)
    requires
        names.no_duplicates(),
        names.contains(sample_name()),
        full_rounds(names, rounds),
        0 <= j <= rounds.len(),
    ensures
        names_unique(append_rounds(Seq::empty(), rounds.take(j))),
        forall|x: Seq<char>|
            #[trigger] has_channel(append_rounds(Seq::empty(), rounds.take(j)), x) <==> (j > 0
                && names.contains(x)),
        forall|c: int|
            0 <= c < append_rounds(Seq::<(Seq<char>, Seq<V>)>::empty(), rounds.take(j)).len()
                ==> #[trigger] append_rounds(Seq::empty(), rounds.take(j))[c].1.len() == j,
    decreases j,
{
    let e = Seq::<(Seq<char>, Seq<V>)>::empty();
    if j > 0 {
        lemma_rounds_state(names, rounds, j - 1);
        let t = append_rounds(e, rounds.take(j - 1));
        let round = rounds[j - 1];
        assert(rounds.take(j).drop_last() =~= rounds.take(j - 1));
        assert(rounds.take(j).last() == round);
        let a = append_rounds(e, rounds.take(j));
        assert(a == append_all(t, round));
        assert(written_names(round).no_duplicates());
        assert(names.contains(sample_name()));
        assert(written_names(round).contains(sample_name()));
        assert forall|c: int| 0 <= c < t.len() implies written_names(round).contains(
            #[trigger] t[c].0,
        ) by {
            lemma_index_of_unique(t, c);
            assert(names.contains(t[c].0));
        }
        if j - 1 > 0 {
            assert forall|k: int| 0 <= k < round.len() implies has_channel(
                t,
                #[trigger] round[k].0,
            ) by {
                assert(written_names(round)[k] == round[k].0);
                assert(written_names(round).contains(round[k].0));
                assert(names.contains(round[k].0));
            }
        }
        lemma_full_round_stays_aligned(t, (j - 1) as nat, round);
        lemma_prefix_lengths(t, round);
        assert forall|x: Seq<char>| #[trigger] has_channel(a, x) <==> names.contains(x) by {
            if names.contains(x) {
                assert(written_names(round).contains(x));
                assert(channel_len(a, x) > 0);
            }
            if has_channel(a, x) {
                if has_channel(t, x) {
                    assert(j - 1 > 0);
                }
            }
        }
    } else {
        assert(rounds.take(0) =~= Seq::<Seq<(Seq<char>, V)>>::empty());
    }
}

/// Full sample rounds from an empty table, each writing every channel of one
/// fixed set `names` exactly once (the `sample` channel among them), keep the
/// table aligned after every write; after `j` rounds the channels are exactly
/// `names`, each holding `j` values.
pub proof fn lemma_full_rounds_stay_aligned<V>(
    names: Seq<Seq<char>>,
    rounds: Seq<Seq<(Seq<char>, V)>>,
)
    requires
        names.no_duplicates(),
        names.contains(sample_name()),
        full_rounds(names, rounds),
    ensures
        forall|j: int, k: int|
            0 <= j < rounds.len() && 0 <= k <= rounds[j].len() ==> #[trigger] alignment(
                append_all(append_rounds(Seq::empty(), rounds.take(j)), rounds[j].take(k)),
            ) == Ok::<(), ImbalanceError>(()),
        forall|j: int, x: Seq<char>|
            0 < j <= rounds.len() ==> (#[trigger] has_channel(
                append_rounds(Seq::<(Seq<char>, Seq<V>)>::empty(), rounds.take(j)),
                x,
            ) <==> names.contains(x)),
        forall|j: int, c: int|
            0 <= j <= rounds.len() && 0 <= c < append_rounds(
                Seq::<(Seq<char>, Seq<V>)>::empty(),
                rounds.take(j),
            ).len() ==> #[trigger] append_rounds(Seq::empty(), rounds.take(j))[c].1.len() == j,
{
    let e = Seq::<(Seq<char>, Seq<V>)>::empty();
    assert forall|j: int, k: int|
        0 <= j < rounds.len() && 0 <= k <= rounds[j].len() implies #[trigger] alignment(
        append_all(append_rounds(e, rounds.take(j)), rounds[j].take(k)),
    ) == Ok::<(), ImbalanceError>(()) by {
        lemma_rounds_state(names, rounds, j);
        let t = append_rounds(e, rounds.take(j));
        let round = rounds[j];
        assert(written_names(round).contains(sample_name()));
        assert forall|c: int| 0 <= c < t.len() implies written_names(round).contains(
            #[trigger] t[c].0,
        ) by {
            lemma_index_of_unique(t, c);
            assert(names.contains(t[c].0));
        }
        if j > 0 {
            assert forall|i: int| 0 <= i < round.len() implies has_channel(
                t,
                #[trigger] round[i].0,
            ) by {
                assert(written_names(round)[i] == round[i].0);
                assert(written_names(round).contains(round[i].0));
                assert(names.contains(round[i].0));
            }
        }
        lemma_full_round_stays_aligned(t, j as nat, round);
    }
    assert forall|j: int, x: Seq<char>| 0 < j <= rounds.len() implies (#[trigger] has_channel(
        append_rounds(e, rounds.take(j)),
        x,
    ) <==> names.contains(x)) by {
        lemma_rounds_state(names, rounds, j);
    }
    assert forall|j: int, c: int|
        0 <= j <= rounds.len() && 0 <= c < append_rounds(e, rounds.take(j)).len() implies #[trigger] append_rounds(
        e,
        rounds.take(j),
    )[c].1.len() == j by {
        lemma_rounds_state(names, rounds, j);
    }
}

/// How many of the names are `sample`.
pub open spec fn sample_writes(keys: Seq<Seq<char>>) -> nat
    decreases keys.len(),
{
    if keys.len() == 0 {
        0
    } else {
        sample_writes(keys.drop_last()) + if keys.last() == sample_name() {
            1nat
        } else {
            0nat
        }
    }
}

/// The values written to `sample`, in order.
pub open spec fn sample_values<V>(keys: Seq<Seq<char>>, vals: Seq<V>) -> Seq<V>
    decreases keys.len(),
{
    if keys.len() == 0 {
        Seq::empty()
    } else {
        let p = sample_values(keys.drop_last(), vals.drop_last());
        if keys.last() == sample_name() {
            p.push(vals.last())
        } else {
            p
        }
    }
}

proof fn lemma_sample_values_len<V>(keys: Seq<Seq<char>>, vals: Seq<V>)
    ensures
        sample_values(keys, vals).len() == sample_writes(keys),
    decreases keys.len(),
{
    if keys.len() > 0 {
        lemma_sample_values_len(keys.drop_last(), vals.drop_last());
    }
}

/// After a stop threshold `n` is set at or above the counter, a run of writes
/// (`keys[k]`, `vals[k]`, returning `results[k]`, from `states[k]` to
/// `states[k + 1]`) leaves exactly `min(n, start + writes to sample)` values
/// in the `sample` channel, however many writes to it come: the first of the
/// values written to it, appended to those it held. Logging is then active
/// exactly while the counter is below `n`.
pub proof fn lemma_stop_threshold<V>(
    states: Seq<SampleLogger<V>>,
    keys: Seq<Seq<char>>,
    vals: Seq<V>,
    results: Seq<Result<(), ImbalanceError>>,
    n: u64,
)
    requires
        states.len() == keys.len() + 1,
        vals.len() == keys.len(),
        results.len() == keys.len(),
        forall|k: int|
            0 <= k < keys.len() ==> SampleLogger::write_step(
                #[trigger] states[k],
                states[k + 1],
                keys[k],
                vals[k],
                results[k],
            ),
        forall|k: int| 0 <= k < states.len() ==> #[trigger] states[k].wf(),
        states[0].stop_after() == Some(n),
        states[0].samples_seen() <= n,
    ensures
        states.last().samples_seen() == if states[0].samples_seen() + sample_writes(keys) < n {
            states[0].samples_seen() + sample_writes(keys)
        } else {
            n as nat
        },
        channel_len(states.last().table(), sample_name()) == states.last().samples_seen(),
        channel_values(states.last().table(), sample_name()) == channel_values(
            states[0].table(),
            sample_name(),
        ) + sample_values(keys, vals).take(
            states.last().samples_seen() - states[0].samples_seen(),
        ),
        states.last().stop_after() == Some(n),
        states.last().active() <==> states.last().samples_seen() < n,
    decreases keys.len(),
{
    let last = states.len() - 1;
    assert(states.last() == states[last]);
    assert(states[last].wf());
    lemma_sample_values_len(keys, vals);
    if keys.len() == 0 {
        assert(sample_values(keys, vals).take(0) =~= Seq::<V>::empty());
        assert(channel_values(states[0].table(), sample_name()) + Seq::<V>::empty() =~= channel_values(
            states[0].table(),
            sample_name(),
        ));
    }
    if keys.len() > 0 {
        let m = keys.len() - 1;
        let s2 = states.drop_last();
        let k2 = keys.drop_last();
        let v2 = vals.drop_last();
        let r2 = results.drop_last();
        assert forall|k: int| 0 <= k < k2.len() implies SampleLogger::write_step(
            #[trigger] s2[k],
            s2[k + 1],
            k2[k],
            v2[k],
            r2[k],
        ) by {
            assert(SampleLogger::write_step(states[k], states[k + 1], keys[k], vals[k], results[k]));
        }
        assert forall|k: int| 0 <= k < s2.len() implies #[trigger] s2[k].wf() by {
            assert(s2[k] == states[k]);
            assert(states[k].wf());
        }
        lemma_stop_threshold(s2, k2, v2, r2, n);
        assert(s2.last() == states[m]);
        assert(k2 =~= keys.drop_last());
        assert(keys.last() == keys[m]);
        assert(SampleLogger::write_step(states[m], states[m + 1], keys[m], vals[m], results[m]));
        assert(v2 =~= vals.drop_last());
        assert(vals.last() == vals[m]);
        lemma_sample_values_len(k2, v2);
        let pre = states[m];
        let post = states[m + 1];
        let c0 = states[0].samples_seen();
        let sv2 = sample_values(k2, v2);
        let sv = sample_values(keys, vals);
        let base = channel_values(states[0].table(), sample_name());
        assert(pre.wf());
        if pre.active() && keys[m].len() > 0 {
            lemma_appended_lengths(pre.table(), keys[m], vals[m]);
            if keys[m] == sample_name() {
                assert(sv == sv2.push(vals[m]));
                assert(pre.samples_seen() - c0 == sv2.len());
                assert(sv2.take(sv2.len() as int) =~= sv2);
                assert(sv.take(post.samples_seen() - c0) =~= sv);
                assert(channel_values(post.table(), sample_name()) =~= base + sv);
            } else {
                assert(sv == sv2);
            }
        } else if keys[m] == sample_name() {
            assert(sv == sv2.push(vals[m]));
            assert(pre.samples_seen() - c0 <= sv2.len());
            assert(sv.take(pre.samples_seen() - c0) =~= sv2.take(pre.samples_seen() - c0));
        } else {
            assert(sv == sv2);
        }
    }
}

/// A table without blank cells, written out as text by `format` and read
/// back by `parse`, comes back as it was, when `parse` reads each text that
/// `format` writes as the value it was written from.
pub proof fn lemma_text_round_trip<V, F: Fn(V) -> String, P: Fn(&str) -> Option<V>>(
    t: Columns<V>,
    n: nat,
    format: F,
    rows: Seq<Vec<String>>,
    parse: P,
    vals: Seq<Seq<V>>,
)
    requires
        forall|c: int| 0 <= c < t.len() ==> #[trigger] t[c].1.len() == n,
        forall|v: V, s: String, x: &str, o: Option<V>|
            #[trigger] call_ensures(format, (v,), s) && #[trigger] call_ensures(parse, (x,), o)
                && x@ == s@ ==> o == Some(v),
        text_rows_of(t, format, rows),
        parsed_as(rows.map_values(|v: Vec<String>| v.deep_view()), parse, vals),
    ensures
        columns_of(names_of(t), vals) == t,
{
    let text = rows.map_values(|v: Vec<String>| v.deep_view());
    if t.len() > 0 {
        assert(t[0].1.len() == n);
        lemma_max_len_is(t, n);
    }
    let back = columns_of(names_of(t), vals);
    assert forall|c: int| 0 <= c < t.len() implies #[trigger] back[c] == t[c] by {
        assert forall|r: int| 0 <= r < n implies vals[r][c] == t[c].1[r] by {
            assert(rows[r]@.len() == t.len());
            assert(cell(t, r, c) == Some(t[c].1[r]));
            assert(call_ensures(format, (t[c].1[r],), rows[r]@[c]));
            assert(text[r] == rows[r].deep_view());
            assert(text[r][c] == rows[r]@[c]@);
            assert(parses_to(text[r][c], parse, Some(vals[r][c])));
        }
        assert(back[c].1 =~= t[c].1);
    }
    assert(back =~= t);
}

/// With no stop threshold, a run of writes (`writes[k]`, returning
/// `results[k]`, from `states[k]` to `states[k + 1]`) builds the table that
/// appending those writes gives, and each write returns the alignment of the
/// table it leaves; so the laws on rounds above hold of the calls themselves.
pub proof fn lemma_run_of_writes<V>(
    states: Seq<SampleLogger<V>>,
    writes: Seq<(Seq<char>, V)>,
    results: Seq<Result<(), ImbalanceError>>,
)
    requires
        states.len() == writes.len() + 1,
        results.len() == writes.len(),
        forall|k: int|
            0 <= k < writes.len() ==> SampleLogger::write_step(
                #[trigger] states[k],
                states[k + 1],
                writes[k].0,
                writes[k].1,
                results[k],
            ),
        states[0].stop_after() == None::<u64>,
    ensures
        forall|k: int|
            0 <= k < states.len() ==> #[trigger] states[k].table() == append_all(
                states[0].table(),
                writes.take(k),
            ),
        forall|k: int|
            0 <= k < writes.len() ==> #[trigger] results[k] == alignment(states[k + 1].table()),
{
    assert forall|k: int| 0 <= k < states.len() implies #[trigger] states[k].table() == append_all(
        states[0].table(),
        writes.take(k),
    ) by {
        lemma_run_prefix(states, writes, results, k);
    }
    assert forall|k: int| 0 <= k < writes.len() implies #[trigger] results[k] == alignment(
        states[k + 1].table(),
    ) by {
        lemma_run_prefix(states, writes, results, k);
        assert(SampleLogger::write_step(
            states[k],
            states[k + 1],
            writes[k].0,
            writes[k].1,
            results[k],
        ));
    }
}

proof fn lemma_run_prefix<V>(
    states: Seq<SampleLogger<V>>,
    writes: Seq<(Seq<char>, V)>,
    results: Seq<Result<(), ImbalanceError>>,
    k: int,
)
    requires
        states.len() == writes.len() + 1,
        results.len() == writes.len(),
        forall|j: int|
            0 <= j < writes.len() ==> SampleLogger::write_step(
                #[trigger] states[j],
                states[j + 1],
                writes[j].0,
                writes[j].1,
                results[j],
            ),
        states[0].stop_after() == None::<u64>,
        0 <= k < states.len(),
    ensures
        states[k].stop_after() == None::<u64>,
        states[k].table() == append_all(states[0].table(), writes.take(k)),
    decreases k,
{
    if k > 0 {
        lemma_run_prefix(states, writes, results, k - 1);
        assert(writes.take(k).drop_last() =~= writes.take(k - 1));
        assert(writes.take(k).last() == writes[k - 1]);
        assert(SampleLogger::write_step(
            states[k - 1],
            states[k],
            writes[k - 1].0,
            writes[k - 1].1,
            results[k - 1],
        ));
    } else {
        assert(writes.take(0) =~= Seq::<(Seq<char>, V)>::empty());
    }
}

} // verus!
