//! Training-time pieces: the in-memory log store, the training
//! configuration's plain fields, and log-line splitting.

use vstd::prelude::*;

use crate::strutil::first_at;
use crate::strutil::trim_spec;

verus! {

pub fn default_save_timestamped_checkpoint() -> (r: bool)
    ensures
        r,
{
    true
}

pub fn default_authored_mode() -> (r: bool)
    ensures
        !r,
{
    false
}

/// Which channels to train on and how: each channel maps to the extra
/// data sources folded into its model.
pub struct TrainingConfig {
    pub channels: Vec<(String, Vec<String>)>,
    pub save_timestamped_checkpoint: bool,
    pub authored_mode: bool,
}

impl TrainingConfig {
    pub open spec fn channel_names(&self) -> Seq<Seq<char>> {
        self.channels@.map_values(|c: (String, Vec<String>)| c.0@)
    }

    /// True when some configured channel has this name.
    pub fn has_channel(&self, channel: &str) -> (r: bool)
        ensures
            r == crate::chain::dict::has_word(self.channel_names(), channel@),
    {
        let n = self.channels.len();
        for i in 0..n
            invariant
                n == self.channels@.len(),
                forall|k: int| 0 <= k < i ==> (#[trigger] self.channels@[k]).0@ != channel@,
        {
            assert(self.channel_names()[i as int] == self.channels@[i as int].0@);
            if crate::strutil::str_eq(self.channels[i].0.as_str(), channel) {
                assert(crate::chain::dict::has_word(self.channel_names(), channel@));
                return true;
            }
        }
        assert forall|k: int|
            0 <= k < self.channel_names().len() implies (#[trigger] self.channel_names()[
            k]) != channel@ by {
            assert(self.channel_names()[k] == self.channels@[k].0@);
        }
        false
    }
}

impl Default for TrainingConfig {
    fn default() -> (r: TrainingConfig)
        ensures
            r.channels@.len() == 0,
            r.save_timestamped_checkpoint,
            !r.authored_mode,
    {
        TrainingConfig {
            channels: Vec::new(),
            save_timestamped_checkpoint: true,
            authored_mode: false,
        }
    }
}

/// Split one log line at its first comma into author and message; a
/// blank line, or one with no comma, yields nothing.
pub fn split_line(line: &str) -> (r: Option<(String, String)>)
    ensures
        trim_spec(line@).len() == 0 ==> r is None,
        trim_spec(line@).len() > 0 && first_at(line@, 0, ',') >= line@.len() ==> r is None,
        trim_spec(line@).len() > 0 && first_at(line@, 0, ',') < line@.len() ==> (match r {
            Some((head, rest)) => {
                let j = first_at(line@, 0, ',');
                head@ == line@.subrange(0, j) && rest@ == line@.subrange(
                    j + 1,
                    line@.len() as int,
                )
            },
            None => false,
        }),
{
    let t = crate::strutil::trim(line);
    if t.is_empty() {
        return None;
    }
    let n = line.unicode_len();
    let mut j: usize = 0;
    while j < n && line.get_char(j) != ','
        invariant
            n == line@.len(),
            0 <= j <= n,
            forall|k: int| 0 <= k < j ==> line@[k] != ',',
        decreases n - j,
    {
        j += 1;
    }
    proof {
        crate::strutil::lemma_first_at(line@, 0, j as int, ',');
    }
    if j == n {
        return None;
    }
    let head = line.substring_char(0, j).to_owned();
    let rest = line.substring_char(j + 1, n).to_owned();
    Some((head, rest))
}

/// One channel's stored logs, as a mathematical value: the channel
/// name and its (file name, contents) pairs in insertion order.
pub type LogEntries = Seq<(Seq<char>, Seq<(Seq<char>, Seq<char>)>)>;

/// The first position at or after `i` whose name is `name`, or the
/// length when no entry has it.
pub open spec fn find_by_name<T>(entries: Seq<(Seq<char>, T)>, name: Seq<char>, i: int) -> int
    decreases entries.len() - i,
{
    if i < 0 || i >= entries.len() {
        entries.len() as int
    } else if entries[i].0 == name {
        i
    } else {
        find_by_name(entries, name, i + 1)
    }
}

pub proof fn lemma_find_by_name<T>(entries: Seq<(Seq<char>, T)>, name: Seq<char>, i: int, j: int)
    requires
        0 <= i <= j <= entries.len(),
        forall|k: int| i <= k < j ==> (#[trigger] entries[k]).0 != name,
        j < entries.len() ==> entries[j].0 == name,
    ensures
        find_by_name(entries, name, i) == if j < entries.len() {
            j
        } else {
            entries.len() as int
        },
    decreases j - i,
{
    if i < j {
        lemma_find_by_name(entries, name, i + 1, j);
    }
}

/// The store after recording one file under its channel: appended to
/// the channel's first entry, or opening the channel when it is new.
pub open spec fn store_spec(
    entries: LogEntries,
    channel: Seq<char>,
    filename: Seq<char>,
    contents: Seq<char>,
) -> LogEntries {
    let i = find_by_name(entries, channel, 0);
    if i < entries.len() {
        entries.update(i, (entries[i].0, entries[i].1.push((filename, contents))))
    } else {
        entries.push((channel, seq![(filename, contents)]))
    }
}

/// The contents stored under one channel name, in insertion order;
/// nothing for a channel never stored to.
pub open spec fn channel_contents(entries: LogEntries, name: Seq<char>) -> Seq<Seq<char>> {
    let i = find_by_name(entries, name, 0);
    if i < entries.len() {
        entries[i].1.map_values(|f: (Seq<char>, Seq<char>)| f.1)
    } else {
        Seq::empty()
    }
}

/// The contents under a list of channel names, name by name.
pub open spec fn contents_for(entries: LogEntries, names: Seq<Seq<char>>) -> Seq<Seq<char>>
    decreases names.len(),
{
    if names.len() == 0 {
        Seq::empty()
    } else {
        contents_for(entries, names.drop_last()) + channel_contents(entries, names.last())
    }
}

/// Every channel's contents, in channel insertion order.
pub open spec fn all_contents(entries: LogEntries) -> Seq<Seq<char>>
    decreases entries.len(),
{
    if entries.len() == 0 {
        Seq::empty()
    } else {
        all_contents(entries.drop_last()) + entries.last().1.map_values(
            |f: (Seq<char>, Seq<char>)| f.1,
        )
    }
}

/// The logs gathered for training, grouped by channel, each as a file
/// name with its contents.
pub struct LogStore {
    pub channels: Vec<(String, Vec<(String, String)>)>,
}

impl TrainingConfig {
    /// The extra data sources configured for a channel: its first
    /// configuration entry's list, or nothing when it has none.
    pub open spec fn cfg_entries(&self) -> Seq<(Seq<char>, Seq<Seq<char>>)> {
        self.channels@.map_values(
            |c: (String, Vec<String>)| (c.0@, c.1@.map_values(|n: String| n@)),
        )
    }

    pub open spec fn sources_of(&self, channel: Seq<char>) -> Seq<Seq<char>> {
        let i = find_by_name(self.cfg_entries(), channel, 0);
        if i < self.cfg_entries().len() {
            self.cfg_entries()[i].1
        } else {
            Seq::empty()
        }
    }
}

impl LogStore {
    /// The store as a mathematical value.
    pub open spec fn entries(&self) -> LogEntries {
        self.channels@.map_values(
            |c: (String, Vec<(String, String)>)|
                (c.0@, c.1@.map_values(|f: (String, String)| (f.0@, f.1@))),
        )
    }

    pub open spec fn channel_names(&self) -> Seq<Seq<char>> {
        self.channels@.map_values(|c: (String, Vec<(String, String)>)| c.0@)
    }

    pub fn new() -> (r: LogStore)
        ensures
            r.entries() == Seq::<(Seq<char>, Seq<(Seq<char>, Seq<char>)>)>::empty(),
    {
        let r = LogStore { channels: Vec::new() };
        proof {
            assert(r.entries() =~= Seq::<(Seq<char>, Seq<(Seq<char>, Seq<char>)>)>::empty());
        }
        r
    }

    fn find_channel(&self, channel: &str) -> (r: Option<usize>)
        ensures
            match r {
                Some(i) => i < self.entries().len() && self.entries()[i as int].0 == channel@
                    && find_by_name(self.entries(), channel@, 0) == i as int,
                None => find_by_name(self.entries(), channel@, 0) == self.entries().len() as int
                    && (forall|k: int|
                    0 <= k < self.entries().len() ==> (#[trigger] self.entries()[k]).0
                        != channel@),
            },
    {
        let ghost e = self.entries();
        let n = self.channels.len();
        for i in 0..n
            invariant
                e == self.entries(),
                n == e.len(),
                n == self.channels@.len(),
                forall|k: int| 0 <= k < i ==> (#[trigger] e[k]).0 != channel@,
        {
            assert(e[i as int].0 == self.channels@[i as int].0@);
            if crate::strutil::str_eq(self.channels[i].0.as_str(), channel) {
                proof {
                    lemma_find_by_name(e, channel@, 0, i as int);
                }
                return Some(i);
            }
        }
        proof {
            lemma_find_by_name(e, channel@, 0, n as int);
        }
        None
    }

    /// File and contents go under their channel, appended in arrival
    /// order; a new channel opens on first sight.
    pub fn store(&mut self, channel: &str, filename: String, contents: String)
        ensures
            final(self).entries() == store_spec(
                old(self).entries(),
                channel@,
                filename@,
                contents@,
            ),
            crate::chain::dict::has_word(final(self).channel_names(), channel@),
    {
        let ghost pre = self.entries();
        let ghost fname = filename@;
        let ghost fcontents = contents@;
        match self.find_channel(channel) {
            Some(i) => {
                let slot = &mut self.channels[i];
                slot.1.push((filename, contents));
                proof {
                    assert(self.entries() =~~= pre.update(
                        i as int,
                        (pre[i as int].0, pre[i as int].1.push((fname, fcontents))),
                    ));
                    assert(self.channel_names()[i as int] == channel@);
                }
            },
            None => {
                let mut files: Vec<(String, String)> = Vec::new();
                files.push((filename, contents));
                self.channels.push((channel.to_owned(), files));
                proof {
                    assert(self.entries() =~~= pre.push((channel@, seq![(fname, fcontents)])));
                    assert(self.channel_names()[pre.len() as int] == channel@);
                }
            },
        }
    }

    /// True when logs were stored for this channel.
    pub fn has(&self, channel: &str) -> (r: bool)
        ensures
            r == crate::chain::dict::has_word(self.channel_names(), channel@),
    {
        match self.find_channel(channel) {
            Some(i) => {
                proof {
                    assert(self.channel_names()[i as int] == channel@);
                }
                true
            },
            None => {
                proof {
                    assert forall|k: int|
                        0 <= k < self.channel_names().len() implies (
                        #[trigger] self.channel_names()[k]) != channel@ by {
                        assert(self.channel_names()[k] == self.entries()[k].0);
                    }
                }
                false
            },
        }
    }

    /// Append one channel's stored contents, in insertion order.
    fn contents_of(&self, channel: &str, out: &mut Vec<String>)
        ensures
            final(out).deep_view() == old(out).deep_view() + channel_contents(
                self.entries(),
                channel@,
            ),
    {
        let ghost base = out.deep_view();
        match self.find_channel(channel) {
            Some(i) => {
                let ghost files = self.entries()[i as int].1;
                let m = self.channels[i].1.len();
                for x in 0..m
                    invariant
                        i < self.channels@.len(),
                        i < self.entries().len(),
                        files == self.entries()[i as int].1,
                        m == files.len(),
                        m == self.channels@[i as int].1@.len(),
                        out.deep_view() == base + files.map_values(
                            |f: (Seq<char>, Seq<char>)| f.1,
                        ).take(x as int),
                {
                    let ghost dv0 = out.deep_view();
                    let piece = self.channels[i].1[x].1.clone();
                    let ghost pv = piece@;
                    out.push(piece);
                    proof {
                        assert(out@.len() == dv0.len() + 1);
                        assert forall|k: int| 0 <= k < out@.len() implies out.deep_view()[k]
                            == dv0.push(pv)[k] by {
                            assert(out.deep_view()[k] == out@[k]@);
                            if k < dv0.len() {
                                assert(dv0[k] == out@[k]@);
                            }
                        }
                        assert(out.deep_view() =~= dv0.push(pv));
                        assert(files[x as int].1 == self.channels@[i as int].1@[x as int].1@);
                        assert(pv == files.map_values(|f: (Seq<char>, Seq<char>)| f.1)[
                            x as int]);
                        assert(out.deep_view() =~= base + files.map_values(
                            |f: (Seq<char>, Seq<char>)| f.1,
                        ).take(x + 1));
                    }
                }
                proof {
                    assert(files.map_values(|f: (Seq<char>, Seq<char>)| f.1).take(m as int)
                        =~= channel_contents(self.entries(), channel@));
                }
            },
            None => {
                proof {
                    assert(channel_contents(self.entries(), channel@) =~= Seq::<
                        Seq<char>,
                    >::empty());
                    assert(out.deep_view() =~= base + channel_contents(
                        self.entries(),
                        channel@,
                    ));
                }
            },
        }
    }

    /// The log contents to train this channel's model on: everything
    /// stored under the channel's configured extra sources, in their
    /// configured order, then everything stored under the channel
    /// itself. The channel must be configured.
    pub fn filter(&self, channel: &str, config: &TrainingConfig) -> (r: Vec<String>)
        requires
            crate::chain::dict::has_word(config.channel_names(), channel@),
        ensures
            r.deep_view() == contents_for(
                self.entries(),
                config.sources_of(channel@).push(channel@),
            ),
    {
        let ghost ce = config.cfg_entries();
        let mut out: Vec<String> = Vec::new();
        let n = config.channels.len();
        let mut sources: Option<usize> = None;
        for i in 0..n
            invariant
                ce == config.cfg_entries(),
                n == ce.len(),
                n == config.channels@.len(),
                match sources {
                    Some(sx) => sx < n && ce[sx as int].0 == channel@ && find_by_name(
                        ce,
                        channel@,
                        0,
                    ) == sx as int,
                    None => forall|k: int| 0 <= k < i ==> (#[trigger] ce[k]).0 != channel@,
                },
        {
            assert(ce[i as int].0 == config.channels@[i as int].0@);
            if sources.is_none() && crate::strutil::str_eq(
                config.channels[i].0.as_str(),
                channel,
            ) {
                proof {
                    lemma_find_by_name(ce, channel@, 0, i as int);
                }
                sources = Some(i);
            }
        }
        match sources {
            Some(sx) => {
                let ghost srcs = config.sources_of(channel@);
                proof {
                    assert(srcs == ce[sx as int].1);
                }
                let m = config.channels[sx].1.len();
                assert(contents_for(self.entries(), srcs.take(0)) =~= Seq::<
                    Seq<char>,
                >::empty()) by {
                    assert(srcs.take(0) =~= Seq::<Seq<char>>::empty());
                }
                for x in 0..m
                    invariant
                        ce == config.cfg_entries(),
                        sx < config.channels@.len(),
                        srcs == config.sources_of(channel@),
                        srcs == ce[sx as int].1,
                        m == srcs.len(),
                        m == config.channels@[sx as int].1@.len(),
                        out.deep_view() == contents_for(self.entries(), srcs.take(x as int)),
                {
                    assert(srcs[x as int] == config.channels@[sx as int].1@[x as int]@);
                    self.contents_of(config.channels[sx].1[x].as_str(), &mut out);
                    proof {
                        assert(srcs.take(x + 1).drop_last() =~= srcs.take(x as int));
                        assert(srcs.take(x + 1).last() == srcs[x as int]);
                    }
                }
                proof {
                    assert(srcs.take(m as int) =~= srcs);
                }
                self.contents_of(channel, &mut out);
                proof {
                    assert(srcs.push(channel@).drop_last() =~= srcs);
                    assert(srcs.push(channel@).last() == channel@);
                }
                out
            },
            None => {
                proof {
                    let k = crate::chain::dict::id_of(config.channel_names(), channel@);
                    assert(0 <= k < config.channel_names().len() && config.channel_names()[k]
                        == channel@);
                    assert(ce[k].0 == config.channels@[k].0@);
                    assert(config.channel_names()[k] == config.channels@[k].0@);
                    assert(false);
                }
                out
            },
        }
    }

    /// Every stored log's contents, channel by channel in insertion
    /// order.
    pub fn all(&self) -> (r: Vec<String>)
        ensures
            r.deep_view() == all_contents(self.entries()),
    {
        let ghost e = self.entries();
        let mut out: Vec<String> = Vec::new();
        let n = self.channels.len();
        assert(all_contents(e.take(0)) =~= Seq::<Seq<char>>::empty()) by {
            assert(e.take(0) =~= Seq::<(Seq<char>, Seq<(Seq<char>, Seq<char>)>)>::empty());
        }
        for i in 0..n
            invariant
                e == self.entries(),
                n == e.len(),
                n == self.channels@.len(),
                out.deep_view() == all_contents(e.take(i as int)),
        {
            let ghost files = e[i as int].1;
            let ghost base = out.deep_view();
            let m = self.channels[i].1.len();
            assert(files.map_values(|f: (Seq<char>, Seq<char>)| f.1).take(0) =~= Seq::<
                Seq<char>,
            >::empty());
            for x in 0..m
                invariant
                    e == self.entries(),
                    i < e.len(),
                    i < self.channels@.len(),
                    files == e[i as int].1,
                    m == files.len(),
                    m == self.channels@[i as int].1@.len(),
                    out.deep_view() == base + files.map_values(
                        |f: (Seq<char>, Seq<char>)| f.1,
                    ).take(x as int),
            {
                let ghost dv0 = out.deep_view();
                let piece = self.channels[i].1[x].1.clone();
                let ghost pv = piece@;
                out.push(piece);
                proof {
                    assert(out@.len() == dv0.len() + 1);
                    assert forall|k: int| 0 <= k < out@.len() implies out.deep_view()[k]
                        == dv0.push(pv)[k] by {
                        assert(out.deep_view()[k] == out@[k]@);
                        if k < dv0.len() {
                            assert(dv0[k] == out@[k]@);
                        }
                    }
                    assert(out.deep_view() =~= dv0.push(pv));
                    assert(files[x as int].1 == self.channels@[i as int].1@[x as int].1@);
                    assert(pv == files.map_values(|f: (Seq<char>, Seq<char>)| f.1)[x as int]);
                    assert(out.deep_view() =~= base + files.map_values(
                        |f: (Seq<char>, Seq<char>)| f.1,
                    ).take(x + 1));
                }
            }
            proof {
                assert(files.map_values(|f: (Seq<char>, Seq<char>)| f.1).take(m as int)
                    =~= files.map_values(|f: (Seq<char>, Seq<char>)| f.1));
                assert(e.take(i + 1).drop_last() =~= e.take(i as int));
                assert(e.take(i + 1).last() == e[i as int]);
                assert(out.deep_view() =~= all_contents(e.take(i + 1)));
            }
        }
        proof {
            assert(e.take(n as int) =~= e);
        }
        out
    }
}

} // verus!
