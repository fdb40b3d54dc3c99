//! Chat-bot decision pieces: reply pacing, per-user cooldowns, and
//! badge checks. Clock readings come in as plain millisecond values, so
//! every decision is verified for any reading.

use vstd::prelude::*;

verus! {

/// Retries for an echoing sample from a single seed word.
pub const MAX_SAMPLES: usize = 4;

/// Retries for a degenerate sample from a seed sequence.
pub const MAX_SAMPLES_FOR_SEQ_INPUT: usize = 16;

/// Default pause between unprompted replies, in milliseconds.
pub fn default_reply_timeout() -> (r: u64)
    ensures
        r == 60_000,
{
    60_000
}

/// Default number of messages before an unprompted reply.
pub fn default_message_count() -> (r: usize)
    ensures
        r == 10,
{
    10
}

/// Default per-user reply cooldown, in milliseconds.
pub fn default_user_cooldown() -> (r: u64)
    ensures
        r == 60_000,
{
    60_000
}

/// Relies on std's `SystemTime::now` and `duration_since` the epoch:
/// some millisecond reading; nothing can be promised of a clock.
#[verifier::external_body]
fn now_millis() -> u64 {
    std::time::SystemTime::now().duration_since(std::time::SystemTime::UNIX_EPOCH).map(
        |d| d.as_millis() as u64,
    ).unwrap_or(0)
}

/// Paces unprompted replies in one channel: reply only after enough
/// messages and enough time since the last reply.
pub struct ChannelReplyTracker {
    pub reply_timer: u64,
    pub message_count: usize,
}

impl ChannelReplyTracker {
    pub fn count_message(&mut self)
        requires
            old(self).message_count < usize::MAX,
        ensures
            final(self).message_count == old(self).message_count + 1,
            final(self).reply_timer == old(self).reply_timer,
    {
        self.message_count = self.message_count + 1;
    }

    /// Reset the pace after a reply sent at the given reading.
    pub fn after_reply(&mut self, now_ms: u64)
        ensures
            final(self).message_count == 0,
            final(self).reply_timer == now_ms,
    {
        self.message_count = 0;
        self.reply_timer = now_ms;
    }

    /// Enough time has passed and enough messages arrived; a clock that
    /// ran backwards counts as no time passed.
    pub fn should_reply(&self, timeout_ms: u64, after_messages: usize, now_ms: u64) -> (r: bool)
        ensures
            r == ({
                let elapsed: u64 = if now_ms >= self.reply_timer {
                    (now_ms - self.reply_timer) as u64
                } else {
                    0u64
                };
                elapsed >= timeout_ms && self.message_count >= after_messages
            }),
    {
        now_ms.saturating_sub(self.reply_timer) >= timeout_ms && self.message_count
            >= after_messages
    }
}

/// One channel's recorded reply times, by user.
pub type UserTimes = Seq<(Seq<char>, u64)>;

/// A user's recorded time in one channel's table.
pub open spec fn user_time(users: UserTimes, user: Seq<char>) -> Option<u64> {
    if exists|j: int| 0 <= j < users.len() && (#[trigger] users[j]).0 == user {
        let j = choose|j: int| 0 <= j < users.len() && (#[trigger] users[j]).0 == user;
        Some(users[j].1)
    } else {
        None
    }
}

/// The recorded reply time for one user of one channel.
pub open spec fn sent_time(
    channels: Seq<(Seq<char>, UserTimes)>,
    channel: Seq<char>,
    user: Seq<char>,
) -> Option<u64> {
    if exists|i: int| 0 <= i < channels.len() && (#[trigger] channels[i]).0 == channel {
        let i = choose|i: int| 0 <= i < channels.len() && (#[trigger] channels[i]).0 == channel;
        user_time(channels[i].1, user)
    } else {
        None
    }
}

/// Each user has at most one entry in a channel's table.
pub open spec fn distinct_users(users: UserTimes) -> bool {
    forall|i: int, j: int| 0 <= i < j < users.len() ==> users[i].0 != users[j].0
}

/// The entries of one channel still strictly inside the window at the
/// given reading.
pub open spec fn kept_users(users: UserTimes, now_ms: u64, cd: u64) -> UserTimes
    decreases users.len(),
{
    if users.len() == 0 {
        Seq::empty()
    } else {
        kept_users(users.drop_last(), now_ms, cd) + (if now_ms >= users.last().1 && now_ms
            - users.last().1 < cd {
            seq![users.last()]
        } else {
            Seq::empty()
        })
    }
}

/// Per-channel, per-user reply cooldowns, with a periodic eviction
/// sweep of expired entries.
pub struct Cooldowns {
    pub(crate) last_sent: Vec<(String, Vec<(String, u64)>)>,
    pub(crate) last_eviction: u64,
    pub(crate) cd: u64,
}

/// Drop every entry not strictly inside the window.
fn evict_users(users: &mut Vec<(String, u64)>, now_ms: u64, cd: u64)
    ensures
        final(users)@.map_values(|u: (String, u64)| (u.0@, u.1)) == kept_users(
            old(users)@.map_values(|u: (String, u64)| (u.0@, u.1)),
            now_ms,
            cd,
        ),
{
    let ghost pre = users@.map_values(|u: (String, u64)| (u.0@, u.1));
    let mut kept: Vec<(String, u64)> = Vec::new();
    let m = users.len();
    assert(kept_users(pre.take(0), now_ms, cd) =~= Seq::<(Seq<char>, u64)>::empty()) by {
        assert(pre.take(0) =~= Seq::<(Seq<char>, u64)>::empty());
    }
    for x in 0..m
        invariant
            m == users@.len(),
            pre == users@.map_values(|u: (String, u64)| (u.0@, u.1)),
            kept@.map_values(|u: (String, u64)| (u.0@, u.1)) == kept_users(
                pre.take(x as int),
                now_ms,
                cd,
            ),
    {
        let ghost kept0 = kept@.map_values(|u: (String, u64)| (u.0@, u.1));
        let t = users[x].1;
        if now_ms >= t && now_ms - t < cd {
            kept.push((users[x].0.clone(), t));
        }
        proof {
            assert(pre.take(x + 1).drop_last() =~= pre.take(x as int));
            assert(pre.take(x + 1).last() == pre[x as int]);
            assert(pre[x as int] == (users@[x as int].0@, users@[x as int].1));
            if now_ms >= t && now_ms - t < cd {
                assert(kept@.map_values(|u: (String, u64)| (u.0@, u.1)) =~= kept0 + seq![
                    pre[x as int],
                ]);
            }
            assert(kept@.map_values(|u: (String, u64)| (u.0@, u.1)) =~= kept_users(
                pre.take(x + 1),
                now_ms,
                cd,
            ));
        }
    }
    proof {
        assert(pre.take(m as int) =~= pre);
    }
    *users = kept;
}

impl Cooldowns {
    pub closed spec fn channels(&self) -> Seq<(Seq<char>, UserTimes)> {
        self.last_sent@.map_values(
            |c: (String, Vec<(String, u64)>)|
                (c.0@, c.1@.map_values(|u: (String, u64)| (u.0@, u.1))),
        )
    }

    pub closed spec fn spec_cd(&self) -> u64 {
        self.cd
    }

    pub closed spec fn spec_last_eviction(&self) -> u64 {
        self.last_eviction
    }

    /// Channel names are distinct, and each channel records a user at
    /// most once, so lookups are unambiguous.
    pub open spec fn wf(&self) -> bool {
        &&& forall|i: int, j: int|
            0 <= i < j < self.channels().len() ==> self.channels()[i].0 != self.channels()[j].0
        &&& forall|i: int|
            0 <= i < self.channels().len() ==> distinct_users(
                (#[trigger] self.channels()[i]).1,
            )
    }

    /// One empty user table per channel; the eviction clock starts at
    /// whatever the clock reads now.
    pub fn new(channels: &Vec<String>, cd: u64) -> (r: Cooldowns)
        requires
            forall|i: int, j: int|
                0 <= i < j < channels@.len() ==> channels@[i]@ != channels@[j]@,
        ensures
            r.wf(),
            r.spec_cd() == cd,
            r.channels().len() == channels@.len(),
            forall|i: int|
                0 <= i < channels@.len() ==> (#[trigger] r.channels()[i]) == (
                    channels@[i]@,
                    Seq::<(Seq<char>, u64)>::empty(),
                ),
    {
        let mut last_sent: Vec<(String, Vec<(String, u64)>)> = Vec::new();
        let n = channels.len();
        for i in 0..n
            invariant
                n == channels@.len(),
                last_sent@.len() == i,
                forall|k: int|
                    0 <= k < i ==> (#[trigger] last_sent@[k]).0@ == channels@[k]@
                        && last_sent@[k].1@.len() == 0,
        {
            let empty_users: Vec<(String, u64)> = Vec::new();
            last_sent.push((channels[i].clone(), empty_users));
        }
        let r = Cooldowns { last_sent, last_eviction: now_millis(), cd };
        proof {
            assert forall|i: int| 0 <= i < channels@.len() implies (#[trigger] r.channels()[i])
                == (channels@[i]@, Seq::<(Seq<char>, u64)>::empty()) by {
                assert(r.channels()[i].1 =~= Seq::<(Seq<char>, u64)>::empty());
            }
        }
        r
    }

    fn find_channel(&self, channel: &str) -> (r: Option<usize>)
        requires
            self.wf(),
        ensures
            match r {
                Some(i) => i < self.channels().len() && self.channels()[i as int].0 == channel@
                    && (exists|k: int|
                    0 <= k < self.channels().len() && (#[trigger] self.channels()[k]).0
                        == channel@) && i as int == (choose|k: int|
                    0 <= k < self.channels().len() && (#[trigger] self.channels()[k]).0
                        == channel@),
                None => forall|k: int|
                    0 <= k < self.channels().len() ==> (#[trigger] self.channels()[k]).0
                        != channel@,
            },
    {
        let n = self.last_sent.len();
        for i in 0..n
            invariant
                self.wf(),
                n == self.channels().len(),
                n == self.last_sent@.len(),
                forall|k: int| 0 <= k < i ==> (#[trigger] self.channels()[k]).0 != channel@,
        {
            assert(self.channels()[i as int].0 == self.last_sent@[i as int].0@);
            if crate::strutil::str_eq(self.last_sent[i].0.as_str(), channel) {
                proof {
                    let k0 = choose|k: int|
                        0 <= k < self.channels().len() && (#[trigger] self.channels()[k]).0
                            == channel@;
                    if k0 < i as int {
                        assert(self.channels()[k0].0 != self.channels()[i as int].0);
                    }
                    if (i as int) < k0 {
                        assert(self.channels()[i as int].0 != self.channels()[k0].0);
                    }
                }
                return Some(i);
            }
        }
        None
    }

    /// Look up one user's recorded time, without mutating anything.
    fn lookup(&self, channel: &str, user: &str) -> (r: Option<u64>)
        requires
            self.wf(),

        ensures
            r == sent_time(self.channels(), channel@, user@),
    {
        match self.find_channel(channel) {
            None => None,
            Some(i) => {
                let ghost users = self.channels()[i as int].1;
                let m = self.last_sent[i].1.len();
                let mut found: Option<u64> = None;
                let mut x: usize = 0;
                while x < m
                    invariant
                        self.wf(),
                        i < self.last_sent@.len(),
                        i < self.channels().len(),
                        self.channels()[i as int].0 == channel@,
                        i as int == (choose|k: int|
                            0 <= k < self.channels().len()
                                && (#[trigger] self.channels()[k]).0 == channel@),
                        exists|k: int|
                            0 <= k < self.channels().len() && (#[trigger] self.channels()[k]).0
                                == channel@,
                        users == self.channels()[i as int].1,
                        m == users.len(),
                        m == self.last_sent@[i as int].1@.len(),
                        found is None,
                        forall|k: int| 0 <= k < x ==> (#[trigger] users[k]).0 != user@,
                    decreases m - x,
                {
                    assert(users[x as int] == (
                        self.last_sent@[i as int].1@[x as int].0@,
                        self.last_sent@[i as int].1@[x as int].1,
                    ));
                    if crate::strutil::str_eq(self.last_sent[i].1[x].0.as_str(), user) {
                        let t = self.last_sent[i].1[x].1;
                        proof {
                            assert(users[x as int].0 == user@);
                            let j0 = choose|j: int|
                                0 <= j < users.len() && (#[trigger] users[j]).0 == user@;
                            assert(user_time(users, user@) == Some(users[j0].1));
                        }
                        proof {
                            assert(distinct_users(users));
                            lemma_user_time_first(users, user@, x as int);
                            assert(sent_time(self.channels(), channel@, user@) == user_time(
                                users,
                                user@,
                            ));
                        }
                        return Some(t);
                    }
                    x += 1;
                }
                proof {
                    assert(user_time(users, user@) is None);
                    assert(sent_time(self.channels(), channel@, user@) == user_time(
                        users,
                        user@,
                    ));
                }
                None
            },
        }
    }

    /// Whether this user of this channel is under cooldown at the given
    /// reading: a reply is recorded, its age is within the window, and
    /// strictly inside it when this call runs the eviction sweep. The
    /// sweep, run when the last one is at least a window old, drops
    /// every expired entry.
    pub fn has_cd_at(&mut self, channel: &str, user: &str, now_ms: u64) -> (r: bool)
        requires
            old(self).wf(),
        ensures
            final(self).wf(),
            final(self).spec_cd() == old(self).spec_cd(),
            final(self).spec_last_eviction() == old(self).spec_last_eviction(),
            ({
                let evicting = now_ms as int - old(self).spec_last_eviction() as int > old(
                    self,
                ).spec_cd() as int;
                &&& r == (match sent_time(old(self).channels(), channel@, user@) {
                    Some(sent) => now_ms >= sent && now_ms - sent <= old(self).spec_cd() && (
                    evicting ==> now_ms - sent < old(self).spec_cd()),
                    None => false,
                })
                &&& (!evicting ==> final(self).channels() == old(self).channels())
                &&& (evicting ==> final(self).channels() == old(self).channels().map_values(
                    |c: (Seq<char>, UserTimes)|
                        (c.0, kept_users(c.1, now_ms, old(self).spec_cd())),
                ))
            }),
    {
        let evicting = now_ms.saturating_sub(self.last_eviction) > self.cd;
        let sent = self.lookup(channel, user);
        let r = match sent {
            Some(t) => now_ms >= t && now_ms - t <= self.cd && (!evicting || now_ms - t
                < self.cd),
            None => false,
        };
        if evicting {
            let ghost pre = self.channels();
            let cd = self.cd;
            let n = self.last_sent.len();
            for i in 0..n
                invariant
                    n == self.last_sent@.len(),
                    n == pre.len(),
                    self.cd == old(self).cd,
                    cd == old(self).cd,
                    self.last_eviction == old(self).last_eviction,
                    forall|k: int| i <= k < n ==> (#[trigger] self.channels()[k]) == pre[k],
                    forall|k: int|
                        0 <= k < i ==> (#[trigger] self.channels()[k]) == (
                            pre[k].0,
                            kept_users(pre[k].1, now_ms, old(self).cd),
                        ),
            {
                let ghost before = self.channels();
                let slot = &mut self.last_sent[i];
                evict_users(&mut slot.1, now_ms, cd);
                proof {
                    assert forall|k: int|
                        0 <= k < n && k != i as int implies #[trigger] self.channels()[k]
                        == before[k] by {
                        assert(self.last_sent@[k] == old(self).last_sent@[k] || true);
                        assert(self.channels()[k] == (
                            self.last_sent@[k].0@,
                            self.last_sent@[k].1@.map_values(
                                |u: (String, u64)| (u.0@, u.1),
                            ),
                        ));
                    }
                    assert(self.channels()[i as int] == (
                        before[i as int].0,
                        kept_users(before[i as int].1, now_ms, cd),
                    ));
                }
            }
            proof {
                assert(self.channels() =~= pre.map_values(
                    |c: (Seq<char>, UserTimes)| (c.0, kept_users(c.1, now_ms, old(self).cd)),
                ));
                assert(self.wf()) by {
                    assert(forall|k: int|
                        0 <= k < self.channels().len() ==> (#[trigger] self.channels()[k]).0
                            == pre[k].0);
                    assert forall|k: int|
                        0 <= k < self.channels().len() implies distinct_users(
                        (#[trigger] self.channels()[k]).1,
                    ) by {
                        assert(distinct_users(pre[k].1));
                        lemma_kept_distinct(pre[k].1, now_ms, old(self).cd);
                        assert(self.channels()[k].1 == kept_users(
                            pre[k].1,
                            now_ms,
                            old(self).cd,
                        ));
                    }
                }
            }
        }
        r
    }

    /// As `has_cd_at`, at whatever the clock reads now.
    pub fn has_cd(&mut self, channel: &str, user: &str) -> (r: bool)
        requires
            old(self).wf(),
        ensures
            final(self).wf(),
            final(self).spec_cd() == old(self).spec_cd(),
    {
        let now = now_millis();
        self.has_cd_at(channel, user, now)
    }

    /// Record a reply to this user at the given reading; a channel this
    /// tracker was not built with is ignored.
    pub fn set_cd_at(&mut self, channel: &str, user: &str, now_ms: u64)
        requires
            old(self).wf(),
        ensures
            final(self).wf(),
            final(self).spec_cd() == old(self).spec_cd(),
            final(self).spec_last_eviction() == old(self).spec_last_eviction(),
            final(self).channels().len() == old(self).channels().len(),
            forall|k: int|
                0 <= k < final(self).channels().len()
                    ==> (#[trigger] final(self).channels()[k]).0 == old(self).channels()[k].0,
            sent_time(final(self).channels(), channel@, user@) == (
            if exists|k: int|
                0 <= k < old(self).channels().len() && (#[trigger] old(self).channels()[k]).0
                    == channel@ {
                Some(now_ms)
            } else {
                None::<u64>
            }),
            forall|ch2: Seq<char>, u2: Seq<char>|
                ch2 != channel@ || u2 != user@ ==> #[trigger] sent_time(
                    final(self).channels(),
                    ch2,
                    u2,
                ) == sent_time(old(self).channels(), ch2, u2),
    {
        let ghost pre = self.channels();
        match self.find_channel(channel) {
            None => {
                proof {
                    assert(sent_time(self.channels(), channel@, user@) is None);
                }
            },
            Some(i) => {
                let ghost users0 = self.channels()[i as int].1;
                // Find the user's slot, if any.
                let m = self.last_sent[i].1.len();
                let mut at: Option<usize> = None;
                for x in 0..m
                    invariant
                        i < self.last_sent@.len(),
                        i < self.channels().len(),
                        users0 == self.channels()[i as int].1,
                        m == users0.len(),
                        m == self.last_sent@[i as int].1@.len(),
                        match at {
                            Some(j) => j < m && users0[j as int].0 == user@,
                            None => forall|k: int|
                                0 <= k < x ==> (#[trigger] users0[k]).0 != user@,
                        },
                {
                    assert(users0[x as int].0 == self.last_sent@[i as int].1@[x as int].0@);
                    if at.is_none() && crate::strutil::str_eq(
                        self.last_sent[i].1[x].0.as_str(),
                        user,
                    ) {
                        at = Some(x);
                    }
                }
                let slot = &mut self.last_sent[i];
                match at {
                    Some(j) => {
                        let e = &mut slot.1[j];
                        *e = (user.to_owned(), now_ms);
                    },
                    None => {
                        slot.1.push((user.to_owned(), now_ms));
                    },
                }
                proof {
                    let post = self.channels();
                    assert(post.len() == pre.len());
                    assert(forall|k: int|
                        0 <= k < post.len() && k != i as int ==> (#[trigger] post[k]) == pre[k]);
                    assert(forall|k: int|
                        0 <= k < post.len() ==> (#[trigger] post[k]).0 == pre[k].0);
                    assert(distinct_users(users0));
                    let usersN0 = post[i as int].1;
                    assert(distinct_users(usersN0)) by {
                        match at {
                            Some(j) => {
                                assert(usersN0 =~= users0.update(
                                    j as int,
                                    (user@, now_ms),
                                ));
                                assert(users0[j as int].0 == user@);
                                assert(forall|k: int|
                                    0 <= k < usersN0.len() ==> (#[trigger] usersN0[k]).0
                                        == users0[k].0);
                            },
                            None => {
                                assert(usersN0 =~= users0.push((user@, now_ms)));
                                assert forall|a: int, b: int|
                                    0 <= a < b < usersN0.len() implies usersN0[a].0
                                    != usersN0[b].0 by {
                                    if b < users0.len() {
                                        assert(usersN0[a] == users0[a] && usersN0[b]
                                            == users0[b]);
                                    } else {
                                        assert(usersN0[b].0 == user@);
                                        assert(usersN0[a] == users0[a]);
                                        assert(users0[a].0 != user@);
                                    }
                                }
                            },
                        }
                    }
                    assert(self.wf());
                    let usersN = post[i as int].1;
                    assert(exists|j: int|
                        0 <= j < usersN.len() && (#[trigger] usersN[j]).0 == user@) by {
                        match at {
                            Some(j) => {
                                assert(usersN[j as int].0 == user@);
                            },
                            None => {
                                assert(usersN[users0.len() as int].0 == user@);
                            },
                        }
                    }
                    assert(sent_time(post, channel@, user@) == Some(now_ms)) by {
                        let i0 = choose|k: int|
                            0 <= k < post.len() && (#[trigger] post[k]).0 == channel@;
                        assert(post[i as int].0 == channel@);
                        if i0 != i as int {
                            assert(post[i0].0 == post[i as int].0);
                        }
                        let j0 = choose|j: int|
                            0 <= j < usersN.len() && (#[trigger] usersN[j]).0 == user@;
                        match at {
                            Some(j) => {
                                assert(usersN =~= users0.update(j as int, (user@, now_ms)));
                                assert(users0[j as int].0 == user@);
                            },
                            None => {
                                assert(usersN =~= users0.push((user@, now_ms)));
                            },
                        }
                        lemma_set_user_unique(users0, usersN, user@, now_ms, at, j0);
                    }
                    // Frame: every other channel, and every other user of
                    // this channel, keeps its recorded time.
                    assert forall|ch2: Seq<char>, u2: Seq<char>|
                        ch2 != channel@ || u2 != user@ implies #[trigger] sent_time(
                        post,
                        ch2,
                        u2,
                    ) == sent_time(pre, ch2, u2) by {
                        if exists|k: int| 0 <= k < pre.len() && (#[trigger] pre[k]).0 == ch2 {
                            let kp = choose|k: int|
                                0 <= k < pre.len() && (#[trigger] pre[k]).0 == ch2;
                            assert(post[kp].0 == ch2);
                            assert(exists|k: int|
                                0 <= k < post.len() && (#[trigger] post[k]).0 == ch2);
                            let kn = choose|k: int|
                                0 <= k < post.len() && (#[trigger] post[k]).0 == ch2;
                            assert(kn == kp) by {
                                if kn < kp {
                                    assert(post[kn].0 != post[kp].0);
                                }
                                if kp < kn {
                                    assert(post[kp].0 != post[kn].0);
                                }
                            }
                            if kp != i as int {
                                assert(post[kp] == pre[kp]);
                            } else {
                                assert(ch2 == channel@);
                                assert(u2 != user@);
                                match at {
                                    Some(j) => {
                                        assert(usersN == users0.update(
                                            j as int,
                                            (user@, now_ms),
                                        ));
                                        assert(users0[j as int].0 == user@);
                                        lemma_user_time_frame(users0, usersN, user@, u2);
                                    },
                                    None => {
                                        assert(usersN == users0.push((user@, now_ms)));
                                        lemma_user_time_frame(users0, usersN, user@, u2);
                                    },
                                }
                            }
                        } else {
                            assert(!exists|k: int|
                                0 <= k < post.len() && (#[trigger] post[k]).0 == ch2) by {
                                if exists|k: int|
                                    0 <= k < post.len() && (#[trigger] post[k]).0 == ch2 {
                                    let k = choose|k: int|
                                        0 <= k < post.len() && (#[trigger] post[k]).0 == ch2;
                                    assert(pre[k].0 == ch2);
                                }
                            }
                        }
                    }
                }
            },
        }
    }

    /// As `set_cd_at`, at whatever the clock reads now.
    pub fn set_cd(&mut self, channel: &str, user: &str)
        requires
            old(self).wf(),
        ensures
            final(self).wf(),
            final(self).spec_cd() == old(self).spec_cd(),
    {
        let now = now_millis();
        self.set_cd_at(channel, user, now);
    }
}

/// In a duplicate-free table, the matching slot decides the lookup.
proof fn lemma_user_time_first(users: UserTimes, user: Seq<char>, x: int)
    requires
        distinct_users(users),
        0 <= x < users.len(),
        users[x].0 == user,
    ensures
        user_time(users, user) == Some(users[x].1),
{
    let j0 = choose|j: int| 0 <= j < users.len() && (#[trigger] users[j]).0 == user;
    assert(0 <= j0 < users.len() && users[j0].0 == user);
    if j0 < x {
        assert(users[j0].0 != users[x].0);
    }
    if x < j0 {
        assert(users[x].0 != users[j0].0);
    }
}

/// Every kept entry comes from the original table.
proof fn lemma_kept_mem(users: UserTimes, now_ms: u64, cd: u64)
    ensures
        forall|k: int|
            0 <= k < kept_users(users, now_ms, cd).len() ==> exists|y: int|
                0 <= y < users.len() && (#[trigger] kept_users(users, now_ms, cd)[k])
                    == users[y],
    decreases users.len(),
{
    if users.len() > 0 {
        lemma_kept_mem(users.drop_last(), now_ms, cd);
        let kept = kept_users(users, now_ms, cd);
        let kd = kept_users(users.drop_last(), now_ms, cd);
        assert forall|k: int| 0 <= k < kept.len() implies exists|y: int|
            0 <= y < users.len() && (#[trigger] kept[k]) == users[y] by {
            if k < kd.len() {
                assert(kept[k] == kd[k]);
                let y = choose|y: int|
                    0 <= y < users.drop_last().len() && kd[k] == users.drop_last()[y];
                assert(users.drop_last()[y] == users[y]);
                assert(kept[k] == users[y]);
            } else {
                assert(kept[k] == users.last());
                assert(kept[k] == users[users.len() - 1]);
            }
        }
    }
}

/// Eviction keeps a duplicate-free table duplicate-free.
proof fn lemma_kept_distinct(users: UserTimes, now_ms: u64, cd: u64)
    requires
        distinct_users(users),
    ensures
        distinct_users(kept_users(users, now_ms, cd)),
    decreases users.len(),
{
    if users.len() > 0 {
        assert(distinct_users(users.drop_last())) by {
            assert(forall|k: int|
                0 <= k < users.drop_last().len() ==> users.drop_last()[k] == users[k]);
        }
        lemma_kept_distinct(users.drop_last(), now_ms, cd);
        lemma_kept_mem(users.drop_last(), now_ms, cd);
        let kept = kept_users(users, now_ms, cd);
        let kd = kept_users(users.drop_last(), now_ms, cd);
        assert forall|i: int, j: int| 0 <= i < j < kept.len() implies kept[i].0 != kept[j].0 by {
            if j < kd.len() {
                assert(kept[i] == kd[i] && kept[j] == kd[j]);
            } else {
                assert(kept[j] == users.last());
                assert(kept[i] == kd[i]);
                let y = choose|y: int|
                    0 <= y < users.drop_last().len() && kd[i] == users.drop_last()[y];
                assert(users[y].0 != users[users.len() - 1].0);
            }
        }
    }
}

/// After setting one user's slot in a duplicate-free table, looking up
/// that user yields the new time, whichever matching index is picked.
proof fn lemma_set_user_unique(
    users0: UserTimes,
    users_n: UserTimes,
    user: Seq<char>,
    now_ms: u64,
    at: Option<usize>,
    j0: int,
)
    requires
        distinct_users(users0),
        match at {
            Some(j) => 0 <= j < users0.len() && users0[j as int].0 == user && users_n
                == users0.update(j as int, (user, now_ms)),
            None => users_n == users0.push((user, now_ms)) && (forall|k: int|
                0 <= k < users0.len() ==> (#[trigger] users0[k]).0 != user),
        },
        0 <= j0 < users_n.len(),
        users_n[j0].0 == user,
    ensures
        users_n[j0].1 == now_ms,
{
    match at {
        Some(j) => {
            if j0 != j as int {
                assert(users_n[j0] == users0[j0]);
                if j0 < j as int {
                    assert(users0[j0].0 != users0[j as int].0);
                } else {
                    assert(users0[j as int].0 != users0[j0].0);
                }
            }
        },
        None => {
            if j0 < users0.len() {
                assert(users0[j0].0 != user);
            }
        },
    }
}

/// Setting one user's slot leaves every other user's lookup unchanged.
proof fn lemma_user_time_frame(
    users0: UserTimes,
    users_n: UserTimes,
    user: Seq<char>,
    u2: Seq<char>,
)
    requires
        u2 != user,
        distinct_users(users0),
        distinct_users(users_n),
        users_n.len() >= users0.len(),
        forall|x: int| 0 <= x < users0.len() ==> (#[trigger] users_n[x]).0 == users0[x].0,
        forall|x: int|
            0 <= x < users0.len() && (#[trigger] users0[x]).0 != user ==> users_n[x]
                == users0[x],
        forall|x: int|
            users0.len() <= x < users_n.len() ==> (#[trigger] users_n[x]).0 == user,
    ensures
        user_time(users_n, u2) == user_time(users0, u2),
{
    if exists|j: int| 0 <= j < users0.len() && (#[trigger] users0[j]).0 == u2 {
        let j0 = choose|j: int| 0 <= j < users0.len() && (#[trigger] users0[j]).0 == u2;
        assert(users_n[j0].0 == u2);
        assert(exists|j: int| 0 <= j < users_n.len() && (#[trigger] users_n[j]).0 == u2);
        let jn = choose|j: int| 0 <= j < users_n.len() && (#[trigger] users_n[j]).0 == u2;
        assert(jn == j0) by {
            if jn < j0 {
                assert(users_n[jn].0 != users_n[j0].0);
            }
            if j0 < jn {
                assert(users_n[j0].0 != users_n[jn].0);
            }
        }
        assert(users0[j0].0 != user);
        assert(users_n[j0] == users0[j0]);
    } else {
        assert(!exists|j: int| 0 <= j < users_n.len() && (#[trigger] users_n[j]).0 == u2) by {
            if exists|j: int| 0 <= j < users_n.len() && (#[trigger] users_n[j]).0 == u2 {
                let j = choose|j: int|
                    0 <= j < users_n.len() && (#[trigger] users_n[j]).0 == u2;
                if j < users0.len() {
                    assert(users0[j].0 == u2);
                } else {
                    assert(users_n[j].0 == user);
                }
            }
        }
    }
}

/// A message's author, as login name and badge text.
pub struct MessageUser<'a> {
    pub login: &'a str,
    pub badges: &'a str,
}

impl<'a> MessageUser<'a> {
    /// The badge text names the given badge.
    pub fn has_badge(&self, badge: &str) -> (r: bool)
        ensures
            r == crate::strutil::has_substring(self.badges@, badge@),
    {
        crate::strutil::contains_str(self.badges, badge)
    }

    pub fn is_mod(&self) -> (r: bool)
        ensures
            r == crate::strutil::has_substring(self.badges@, "moderator"@),
    {
        self.has_badge("moderator")
    }

    pub fn is_streamer(&self) -> (r: bool)
        ensures
            r == crate::strutil::has_substring(self.badges@, "broadcaster"@),
    {
        self.has_badge("broadcaster")
    }
}

} // verus!
