//! The recorder: per-sample bookkeeping over a channel table, with a stop
//! threshold keyed on the `sample` channel.

use vstd::prelude::*;
use crate::codec::{all_plain, csv_document, encode_rows, plain_document};
use crate::table::{
    alignment, appended, channel_len, names_of, names_unique, sample_name, text_rows_of,
    ChannelTable, Columns, ImbalanceError,
};

verus! {

/// The records of the table file for `t`: the header of names, then the
/// text rows.
pub open spec fn file_records<V>(t: Columns<V>, rows: Seq<Vec<String>>) -> Seq<Seq<Seq<char>>> {
    seq![names_of(t)] + rows.map_values(|v: Vec<String>| v.deep_view())
}

/// Records named channels sample by sample. Each write to the channel named
/// `sample` advances the sample counter; once a stop threshold is set and the
/// counter reaches it, further writes are ignored.
pub struct SampleLogger<V> {
    debug_values: ChannelTable<V>,
    samples_seen: u64,
    quit_after_n_samples: Option<u64>,
    output_file: String,
}

impl<V> SampleLogger<V> {
    /// The channels recorded so far.
    pub closed spec fn table(&self) -> Columns<V> {
        self.debug_values@
    }

    /// How many values the `sample` channel has accepted.
    pub closed spec fn samples_seen(&self) -> nat {
        self.samples_seen as nat
    }

    /// The stop threshold, if one is set.
    pub closed spec fn stop_after(&self) -> Option<u64> {
        self.quit_after_n_samples
    }

    /// Where the table is meant to be written.
    pub closed spec fn output_file(&self) -> Seq<char> {
        self.output_file@
    }

    /// Names are unique, and the counter is the length of the `sample` channel.
    pub open spec fn wf(&self) -> bool {
        &&& names_unique(self.table())
        &&& self.samples_seen() == channel_len(self.table(), sample_name())
    }

    /// Whether a write would be recorded.
    pub open spec fn active(&self) -> bool {
        match self.stop_after() {
            Some(n) => self.samples_seen() < n,
            None => true,
        }
    }

    /// What one call of `write(key, value)` does, from `pre` to `post`,
    /// returning `r`.
    pub open spec fn write_step(
        pre: Self,
        post: Self,
        key: Seq<char>,
        value: V,
        r: Result<(), ImbalanceError>,
    ) -> bool {
        &&& post.stop_after() == pre.stop_after()
        &&& post.output_file() == pre.output_file()
        &&& if pre.active() {
            &&& post.table() == appended(pre.table(), key, value)
            &&& post.samples_seen() == pre.samples_seen() + if key == sample_name() {
                1nat
            } else {
                0nat
            }
            &&& r == alignment(post.table())
        } else {
            &&& post.table() == pre.table()
            &&& post.samples_seen() == pre.samples_seen()
            &&& r == Ok::<(), ImbalanceError>(())
        }
    }

    /// A recorder with no channels, a counter of zero and no stop threshold,
    /// that will write to `output_file`.
    pub fn new(output_file: String) -> (l: Self)
        ensures
            l.wf(),
            l.table() == Seq::<(Seq<char>, Seq<V>)>::empty(),
            l.samples_seen() == 0,
            l.stop_after() == None::<u64>,
            l.output_file() == output_file@,
    {
        SampleLogger {
            debug_values: ChannelTable::new(),
            samples_seen: 0,
            quit_after_n_samples: None,
            output_file,
        }
    }

    /// Where the table is meant to be written.
    pub fn output_path(&self) -> (s: &String)
        ensures
            s@ == self.output_file(),
    {
        &self.output_file
    }

    /// The channels recorded so far.
    pub fn channels(&self) -> (t: &ChannelTable<V>)
        ensures
            t@ == self.table(),
    {
        &self.debug_values
    }

    /// How many values the `sample` channel has accepted.
    pub fn sample_count(&self) -> (n: u64)
        ensures
            n == self.samples_seen(),
    {
        self.samples_seen
    }

    /// Records `value` under `key` while logging is active; otherwise does
    /// nothing. After recording, checks the table's alignment: an error then
    /// means that the value was appended and broke it.
    pub fn write(&mut self, key: &str, value: V) -> (r: Result<(), ImbalanceError>)
        requires
            old(self).wf(),
        ensures
            final(self).wf(),
            Self::write_step(*old(self), *final(self), key@, value, r),
    {
        if !self.is_logging_active() {
            return Ok(());
        }
        let name = key.to_owned();
        let sample = "sample".to_owned();
        proof {
            reveal_strlit("sample");
            assert(sample@ =~= sample_name());
        }
        let is_sample = name == sample;
        let n = self.debug_values.push_value(name, value);
        proof {
            crate::table::lemma_appended_lengths(old(self).table(), key@, value);
        }
        if is_sample {
            assert(n == self.samples_seen + 1);
            self.samples_seen = n as u64;
        }
        self.debug_values.alignment()
    }

    /// Sets the stop threshold: logging stays active while the counter is
    /// below `samples`.
    pub fn set_quit_after_n_samples(&mut self, samples: u64)
        requires
            old(self).wf(),
        ensures
            final(self).wf(),
            final(self).stop_after() == Some(samples),
            final(self).table() == old(self).table(),
            final(self).samples_seen() == old(self).samples_seen(),
            final(self).output_file() == old(self).output_file(),
    {
        self.quit_after_n_samples = Some(samples);
    }

    /// Whether a write would be recorded: the counter is below the stop
    /// threshold, or no threshold is set.
    pub fn is_logging_active(&self) -> (b: bool)
        ensures
            b == self.active(),
    {
        match self.quit_after_n_samples {
            Some(limit) => self.samples_seen < limit,
            None => true,
        }
    }

    /// The table file's bytes: after an alignment check, a header record of
    /// channel names in first-insertion order, then one record per sample
    /// index up to the longest channel, each value as `format` writes it and
    /// an empty field where a channel has no value. A table without channels
    /// gives no bytes at all (a file that reads back as missing its header).
    /// When every name and every cell text is plain (ASCII, without `,` `"`
    /// or line breaks, and not a lone empty field), each record is its fields
    /// joined by commas, then a newline. The recorder is left as it is, so a
    /// repeated call gives the same bytes.
    pub fn write_debug_values<F: Fn(V) -> String>(&self, format: F) -> (r: Result<
        Vec<u8>,
        ImbalanceError,
    >) where V: Copy
        requires
            forall|v: V| call_requires(format, (v,)),
        ensures
            match alignment(self.table()) {
                Err(e) => r == Err::<Vec<u8>, ImbalanceError>(e),
                Ok(_) => r is Ok,
            },
            r matches Ok(b) ==> (self.table().len() == 0 ==> b@.len() == 0),
            r matches Ok(b) ==> (self.table().len() > 0 ==> exists|rows: Seq<Vec<String>>|
                #[trigger] text_rows_of(self.table(), format, rows) && b@ == csv_document(
                    file_records(self.table(), rows),
                ) && (all_plain(file_records(self.table(), rows)) ==> b@ == plain_document(
                    file_records(self.table(), rows),
                ))),
    {
        if let Err(e) = self.debug_values.alignment() {
            return Err(e);
        }
        if self.debug_values.num_channels() == 0 {
            return Ok(Vec::new());
        }
        let mut all: Vec<Vec<String>> = Vec::new();
        all.push(self.debug_values.names());
        let mut body = self.debug_values.text_rows(&format);
        let ghost rows = body@;
        all.append(&mut body);
        assert(all.deep_view() =~= file_records(self.table(), rows));
        Ok(encode_rows(&all))
    }
}

/// The recorder with logging compiled out, for builds that must not pay for
/// it: it keeps no table, every write succeeds at once without effect, and
/// flushing has nothing to write.
pub struct DisabledSampleLogger {
    output_file: String,
}

impl DisabledSampleLogger {
    /// Where a table would have been written.
    pub closed spec fn output_file(&self) -> Seq<char> {
        self.output_file@
    }

    pub fn new(output_file: String) -> (l: Self)
        ensures
            l.output_file() == output_file@,
    {
        DisabledSampleLogger { output_file }
    }

    /// Where a table would have been written.
    pub fn output_path(&self) -> (s: &String)
        ensures
            s@ == self.output_file(),
    {
        &self.output_file
    }

    /// Ignores the value and succeeds.
    pub fn write<V>(&mut self, key: &str, value: V) -> (r: Result<(), ImbalanceError>)
        ensures
            *final(self) == *old(self),
            r is Ok,
    {
        Ok(())
    }

    /// Ignores the threshold.
    pub fn set_quit_after_n_samples(&mut self, samples: u64)
        ensures
            *final(self) == *old(self),
    {
    }

    /// Never active: nothing is recorded.
    pub fn is_logging_active(&self) -> (b: bool)
        ensures
            !b,
    {
        false
    }

    /// Succeeds with nothing to write.
    pub fn write_debug_values(&self) -> (r: Result<Vec<u8>, ImbalanceError>)
        ensures
            r matches Ok(b) && b@.len() == 0,
    {
        Ok(Vec::new())
    }
}

} // verus!
