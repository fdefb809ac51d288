//! Participation in the ritual: recognising a message that counts, the
//! state of the current counting window (who already took part, who was
//! first), and the update of a participant's profile.
use vstd::prelude::*;

use crate::clock::{eastern_clock, eastern_hour, eastern_minute, in_clock_range};
use crate::config::{bot_channel_id, in_bot_channel, is_929_minute, is_929_time};
use crate::text::{contains_seq, mentions_929, token_929};

verus! {

// ---------------------------------------------------------------------------
// Recognising a message
// ---------------------------------------------------------------------------

/// What `str::to_lowercase` returns for a text.
pub uninterp spec fn lowercase_of(s: Seq<char>) -> Seq<char>;

/// The lower-case form of `s` (`str::to_lowercase`, which maps each
/// character to its Unicode lower-case mapping). Only named: the result is
/// a function of `s` alone.
#[verifier::external_body]
pub(crate) fn to_lowercase(s: &str) -> (r: String)
    ensures
        r@ == lowercase_of(s@),
{
    s.to_lowercase()
}

/// How a message stands with respect to the ritual.
#[derive(Debug, PartialEq, Eq, Structural)]
pub enum MessageVerdict {
    /// Posted outside the bot channel: ignored.
    OtherChannel,
    /// Posted in the counting minute; `mentions` tells whether its
    /// lower-cased text holds `929`.
    InWindow { mentions: bool },
    /// Posted in the channel at another time; `mentions` tells whether its
    /// text holds `929`, and the clock reading is kept for the log.
    OutOfWindow { mentions: bool, hour: u32, minute: u32 },
}

/// Classifies a message by its channel, its text and its UTC timestamp
/// (seconds since the Unix epoch).
pub fn classify_message(channel_id: u64, content: &str, unix_secs: i64) -> (r: MessageVerdict)
    requires
        in_clock_range(unix_secs as int),
    ensures
        channel_id != bot_channel_id() ==> r == MessageVerdict::OtherChannel,
        channel_id == bot_channel_id() && is_929_minute(
            eastern_hour(unix_secs as int),
            eastern_minute(unix_secs as int),
        ) ==> r == (MessageVerdict::InWindow {
            mentions: contains_seq(lowercase_of(content@), token_929()),
        }),
        channel_id == bot_channel_id() && !is_929_minute(
            eastern_hour(unix_secs as int),
            eastern_minute(unix_secs as int),
        ) ==> r == (MessageVerdict::OutOfWindow {
            mentions: contains_seq(content@, token_929()),
            hour: eastern_hour(unix_secs as int) as u32,
            minute: eastern_minute(unix_secs as int) as u32,
        }),
{
    if !in_bot_channel(channel_id) {
        return MessageVerdict::OtherChannel;
    }
    let lower = to_lowercase(content);
    let (hour, minute) = eastern_clock(unix_secs);
    if is_929_time(hour, minute) {
        MessageVerdict::InWindow { mentions: mentions_929(lower.as_str()) }
    } else {
        MessageVerdict::OutOfWindow { mentions: mentions_929(content), hour, minute }
    }
}

// ---------------------------------------------------------------------------
// Profiles
// ---------------------------------------------------------------------------

/// A participant's profile. Points only ever change by multiples of one
/// half, so they are kept exactly as a count of halves: `half_points` is
/// twice the points.
#[derive(Clone, Copy, Debug, PartialEq, Eq, Structural)]
pub struct Nine92er {
    pub _id: i64,
    pub currentstreak: i32,
    pub half_points: i64,
    pub maxstreak: i32,
    pub count: i32,
}

/// `x / 5` as machine integers divide: rounded toward zero.
pub open spec fn div5_toward_zero(x: int) -> int {
    if x >= 0 {
        x / 5
    } else {
        -((-x) / 5)
    }
}

/// The streak multiplier of a participation: one plus a fifth of the
/// streak, rounded toward zero.
pub open spec fn streak_multiplier(streak: int) -> int {
    1 + div5_toward_zero(streak)
}

/// Half-points earned per unit of multiplier: three (1.5 points) for the
/// first participant of the window, two (1 point) for the others.
pub open spec fn halves_per_unit(first: bool) -> int {
    if first {
        3
    } else {
        2
    }
}

/// The profile after one more participation. `continued` tells whether
/// the participant also took part in the previous window; `first` whether
/// nobody took part before them in this one.
pub open spec fn after_participation(p: Nine92er, continued: bool, first: bool) -> Nine92er {
    let streak: int = if continued {
        p.currentstreak + 1
    } else {
        1
    };
    Nine92er {
        _id: p._id,
        currentstreak: streak as i32,
        half_points: (p.half_points + halves_per_unit(first) * streak_multiplier(streak)) as i64,
        maxstreak: if streak > p.maxstreak {
            streak as i32
        } else {
            p.maxstreak
        },
        count: (p.count + 1) as i32,
    }
}

/// Half-points kept far enough from the limits of `i64` that no
/// participation can overflow them.
pub open spec fn half_points_in_range(h: int) -> bool {
    -0x4000_0000_0000_0000 <= h <= 0x4000_0000_0000_0000
}

impl Nine92er {
    /// The profile of someone taking part for the first time: all zero.
    pub fn fresh(author_id: u64) -> (p: Nine92er)
        ensures
            p._id == author_id as i64,
            p.currentstreak == 0,
            p.half_points == 0,
            p.maxstreak == 0,
            p.count == 0,
    {
        Nine92er { _id: author_id as i64, currentstreak: 0, half_points: 0, maxstreak: 0, count: 0 }
    }

    /// Records one participation: the streak grows by one if the
    /// participant took part in the previous window and restarts at one
    /// otherwise; points grow by the streak multiplier, half as much again
    /// for the first participant; the longest streak follows the current
    /// one; the count of participations grows by one.
    pub fn record_929(&mut self, continued: bool, first: bool)
        requires
            continued ==> old(self).currentstreak < i32::MAX,
            old(self).count < i32::MAX,
            half_points_in_range(old(self).half_points as int),
        ensures
            *final(self) == after_participation(*old(self), continued, first),
            final(self).currentstreak == (if continued {
                old(self).currentstreak + 1
            } else {
                1
            }),
            final(self).half_points == old(self).half_points + halves_per_unit(first)
                * streak_multiplier(final(self).currentstreak as int),
            final(self).currentstreak >= 0 ==> final(self).half_points == old(self).half_points
                + (if first {
                3int
            } else {
                2int
            }) * (1 + final(self).currentstreak / 5),
            final(self).maxstreak >= final(self).currentstreak,
            final(self).maxstreak >= old(self).maxstreak,
            final(self).count == old(self).count + 1,
            final(self)._id == old(self)._id,
    {
        let streak: i32 = if continued {
            self.currentstreak + 1
        } else {
            1
        };
        let fifth: i64 = if streak >= 0 {
            (streak / 5) as i64
        } else {
            -(((-streak) / 5) as i64)
        };
        let multiplier: i64 = 1 + fifth;
        let per_unit: i64 = if first {
            3
        } else {
            2
        };
        assert(-429496730 <= multiplier <= 429496730);
        assert(-1288490190 <= per_unit * multiplier <= 1288490190) by (nonlinear_arith)
            requires
                -429496730 <= multiplier <= 429496730,
                per_unit == 2 || per_unit == 3,
        ;
        self.currentstreak = streak;
        self.half_points = self.half_points + per_unit * multiplier;
        if streak > self.maxstreak {
            self.maxstreak = streak;
        }
        self.count = self.count + 1;
    }
}

// ---------------------------------------------------------------------------
// The counting window
// ---------------------------------------------------------------------------

/// A record of the previous window's participants, kept in the database
/// to decide whether a streak continues.
#[derive(Debug)]
pub struct Pastlist {
    pub _id: i64,
    pub _t: String,
}

/// The type tag of every `Pastlist` record.
pub open spec fn pastuser_tag() -> Seq<char> {
    seq!['p', 'a', 's', 't', 'u', 's', 'e', 'r']
}

/// `docs` records the participants `did`: one record each, in order,
/// holding the participant's id (its bits read as a signed number).
pub open spec fn pastlist_of(did: Seq<u64>, docs: Seq<Pastlist>) -> bool {
    &&& docs.len() == did.len()
    &&& forall|i: int|
        0 <= i < docs.len() ==> (#[trigger] docs[i])._id == did[i] as i64 && docs[i]._t@
            == pastuser_tag()
}

/// Some record of `docs` is the one of `author`.
pub open spec fn in_pastlist(docs: Seq<Pastlist>, author: u64) -> bool {
    exists|i: int| 0 <= i < docs.len() && (#[trigger] docs[i])._id == author as i64
}

/// A window with first participant `first` (0: none yet) has nobody first.
pub open spec fn is_first(first: u64) -> bool {
    first == 0
}

/// Who took part in the current window, in order, and who was first
/// (`0` while nobody was).
#[derive(Debug)]
pub struct DailyState {
    pub did929: Vec<u64>,
    pub first: u64,
}

/// The participants after `author` takes part: appended unless already
/// there.
pub open spec fn registered(did: Seq<u64>, author: u64) -> Seq<u64> {
    if did.contains(author) {
        did
    } else {
        did.push(author)
    }
}

impl DailyState {
    /// Nobody appears twice among the participants.
    pub open spec fn wf(&self) -> bool {
        self.did929@.no_duplicates()
    }

    /// The state at the start of a window: nobody took part, nobody first.
    pub fn new() -> (s: DailyState)
        ensures
            s.did929@ == Seq::<u64>::empty(),
            s.first == 0,
            s.wf(),
    {
        DailyState { did929: Vec::new(), first: 0 }
    }

    /// Notes that `author` took part; returns whether this is their first
    /// participation in the window (only then does it count).
    pub fn register(&mut self, author: u64) -> (newly: bool)
        ensures
            newly == !old(self).did929@.contains(author),
            final(self).did929@ == registered(old(self).did929@, author),
            final(self).first == old(self).first,
            old(self).wf() ==> final(self).wf(),
    {
        let n = self.did929.len();
        let mut i: usize = 0;
        while i < n
            invariant
                n == self.did929@.len(),
                i <= n,
                forall|j: int| 0 <= j < i ==> self.did929@[j] != author,
            decreases n - i,
        {
            if self.did929[i] == author {
                assert(self.did929@.contains(author));
                return false;
            }
            i = i + 1;
        }
        assert(!self.did929@.contains(author));
        let ghost before = self.did929@;
        self.did929.push(author);
        proof {
            if before.no_duplicates() {
                assert forall|a: int, b: int|
                    0 <= a < self.did929@.len() && 0 <= b < self.did929@.len() && a != b implies
                    self.did929@[a] != self.did929@[b] by {
                    if a < before.len() && b < before.len() {
                        assert(self.did929@[a] == before[a]);
                        assert(self.did929@[b] == before[b]);
                    } else if a < before.len() {
                        assert(self.did929@[a] == before[a]);
                    } else if b < before.len() {
                        assert(self.did929@[b] == before[b]);
                    }
                }
            }
        }
        true
    }

    /// Notes that `author` scored; returns whether they are the first of
    /// the window (nobody was recorded as first before).
    pub fn take_first(&mut self, author: u64) -> (was_first: bool)
        ensures
            was_first == is_first(old(self).first),
            final(self).first == author,
            final(self).did929@ == old(self).did929@,
    {
        let was_first = self.first == 0;
        self.first = author;
        was_first
    }

    /// Closes the window: returns one `Pastlist` record per participant,
    /// in order, and starts an empty window.
    pub fn close_window(&mut self) -> (docs: Vec<Pastlist>)
        ensures
            pastlist_of(old(self).did929@, docs@),
            final(self).did929@ == Seq::<u64>::empty(),
            final(self).first == 0,
            final(self).wf(),
    {
        let mut docs: Vec<Pastlist> = Vec::new();
        let n = self.did929.len();
        let mut i: usize = 0;
        while i < n
            invariant
                n == self.did929@.len(),
                i <= n,
                docs@.len() == i,
                forall|j: int|
                    0 <= j < i ==> (#[trigger] docs@[j])._id == self.did929@[j] as i64
                        && docs@[j]._t@ == pastuser_tag(),
            decreases n - i,
        {
            let tag = String::from_str("pastuser");
            proof {
                reveal_strlit("pastuser");
            }
            docs.push(Pastlist { _id: self.did929[i] as i64, _t: tag });
            i = i + 1;
        }
        self.did929 = Vec::new();
        self.first = 0;
        docs
    }
}

// ---------------------------------------------------------------------------
// Watching the clock
// ---------------------------------------------------------------------------

/// Where the clock watcher stands: before the counting minute, or in it.
#[derive(Debug, Clone, Copy, PartialEq, Eq, Structural)]
pub enum WatchPhase {
    Waiting,
    InMinute,
}

/// What the watcher does after a clock reading.
#[derive(Debug, Clone, Copy, PartialEq, Eq, Structural)]
pub enum WatchAction {
    /// Nothing to do.
    Idle,
    /// The counting minute has begun.
    Opened,
    /// The counting minute is over: close the window.
    Close,
}

/// The watcher's next phase and action, from its phase and whether the
/// latest reading falls in the counting minute.
pub open spec fn watch_next(phase: WatchPhase, in_minute: bool) -> (WatchPhase, WatchAction) {
    match phase {
        WatchPhase::Waiting => if in_minute {
            (WatchPhase::InMinute, WatchAction::Opened)
        } else {
            (WatchPhase::Waiting, WatchAction::Idle)
        },
        WatchPhase::InMinute => if in_minute {
            (WatchPhase::InMinute, WatchAction::Idle)
        } else {
            (WatchPhase::Waiting, WatchAction::Close)
        },
    }
}

/// One step of the clock watcher on a reading `hour:minute`.
pub fn watch_step(phase: WatchPhase, hour: u32, minute: u32) -> (r: (WatchPhase, WatchAction))
    ensures
        r == watch_next(phase, is_929_minute(hour as int, minute as int)),
{
    let in_minute = is_929_time(hour, minute);
    match phase {
        WatchPhase::Waiting => if in_minute {
            (WatchPhase::InMinute, WatchAction::Opened)
        } else {
            (WatchPhase::Waiting, WatchAction::Idle)
        },
        WatchPhase::InMinute => if in_minute {
            (WatchPhase::InMinute, WatchAction::Idle)
        } else {
            (WatchPhase::Waiting, WatchAction::Close)
        },
    }
}

/// The actions of a watcher that starts in `phase` and is given the
/// readings `readings` (each: in the counting minute or not), in order.
pub open spec fn watch_run(phase: WatchPhase, readings: Seq<bool>) -> Seq<WatchAction>
    decreases readings.len(),
{
    if readings.len() == 0 {
        Seq::empty()
    } else {
        let (next, action) = watch_next(phase, readings[0]);
        seq![action] + watch_run(next, readings.drop_first())
    }
}

proof fn lemma_watch_run_tail(phase: WatchPhase, readings: Seq<bool>, prev: bool)
    requires
        phase == (if prev {
            WatchPhase::InMinute
        } else {
            WatchPhase::Waiting
        }),
    ensures
        watch_run(phase, readings).len() == readings.len(),
        readings.len() > 0 ==> (watch_run(phase, readings)[0] == WatchAction::Close <==> prev
            && !readings[0]),
        readings.len() > 0 ==> (watch_run(phase, readings)[0] == WatchAction::Opened <==> !prev
            && readings[0]),
        forall|i: int|
            0 < i < readings.len() ==> ((#[trigger] watch_run(phase, readings)[i]) == WatchAction::Close
                <==> readings[i - 1] && !readings[i]),
        forall|i: int|
            0 < i < readings.len() ==> ((#[trigger] watch_run(phase, readings)[i]) == WatchAction::Opened
                <==> !readings[i - 1] && readings[i]),
    decreases readings.len(),
{
    if readings.len() > 0 {
        let (next, action) = watch_next(phase, readings[0]);
        let rest = readings.drop_first();
        lemma_watch_run_tail(next, rest, readings[0]);
        let run = watch_run(phase, readings);
        assert forall|i: int| 0 < i < readings.len() implies ((#[trigger] run[i]) == WatchAction::Close
            <==> readings[i - 1] && !readings[i]) && (run[i] == WatchAction::Opened <==> !readings[i
            - 1] && readings[i]) by {
            assert(run[i] == watch_run(next, rest)[i - 1]);
            assert(rest[i - 1] == readings[i]);
            if i > 1 {
                assert(rest[i - 2] == readings[i - 1]);
            }
        }
    }
}

/// A watcher that starts before the minute closes the window exactly at
/// the first reading after each stretch of readings in the counting
/// minute, and announces the minute exactly at the first reading of each
/// such stretch: never twice for one minute, never without one.
pub proof fn lemma_watch_closes_each_minute_once(readings: Seq<bool>)
    ensures
        watch_run(WatchPhase::Waiting, readings).len() == readings.len(),
        forall|i: int|
            0 < i < readings.len() ==> ((#[trigger] watch_run(WatchPhase::Waiting, readings)[i])
                == WatchAction::Close <==> readings[i - 1] && !readings[i]),
        forall|i: int|
            0 < i < readings.len() ==> ((#[trigger] watch_run(WatchPhase::Waiting, readings)[i])
                == WatchAction::Opened <==> !readings[i - 1] && readings[i]),
        readings.len() > 0 ==> watch_run(WatchPhase::Waiting, readings)[0] != WatchAction::Close,
{
    lemma_watch_run_tail(WatchPhase::Waiting, readings, false);
}

// ---------------------------------------------------------------------------
// Laws
// ---------------------------------------------------------------------------

/// Taking part more than once in a window counts once: the participant is
/// recorded after the first time, a second registration changes nothing,
/// and nobody is ever recorded twice.
pub proof fn lemma_register_once(did: Seq<u64>, author: u64)
    ensures
        registered(did, author).contains(author),
        registered(registered(did, author), author) == registered(did, author),
        did.no_duplicates() ==> registered(did, author).no_duplicates(),
{
    let r = registered(did, author);
    if !did.contains(author) {
        assert(r[r.len() - 1] == author);
        if did.no_duplicates() {
            assert forall|a: int, b: int| 0 <= a < r.len() && 0 <= b < r.len() && a != b implies r[a]
                != r[b] by {
                if a < did.len() && b < did.len() {
                    assert(r[a] == did[a] && r[b] == did[b]);
                } else if a < did.len() {
                    assert(r[a] == did[a]);
                } else if b < did.len() {
                    assert(r[b] == did[b]);
                }
            }
        }
    }
}

/// The first participant of a window earns half as much again as any
/// later one with the same streak: 1.5 points against 1 per unit of the
/// streak multiplier.
pub proof fn lemma_first_bonus(p: Nine92er, continued: bool)
    requires
        continued ==> p.currentstreak < i32::MAX,
        p.count < i32::MAX,
        half_points_in_range(p.half_points as int),
    ensures
        2 * (after_participation(p, continued, true).half_points - p.half_points) == 3 * (
        after_participation(p, continued, false).half_points - p.half_points),
{
    let streak: int = if continued {
        p.currentstreak + 1
    } else {
        1
    };
    let m = streak_multiplier(streak);
    assert(-429496730 <= m <= 429496730);
    assert(after_participation(p, continued, true).half_points == p.half_points + 3 * m);
    assert(after_participation(p, continued, false).half_points == p.half_points + 2 * m);
}

/// After any participation the longest streak is at least the current
/// streak and at least the longest streak before, the count has grown by
/// one, and a streak that was not continued starts again at one.
pub proof fn lemma_streak_bounds(p: Nine92er, continued: bool, first: bool)
    requires
        continued ==> p.currentstreak < i32::MAX,
        p.count < i32::MAX,
    ensures
        after_participation(p, continued, first).maxstreak >= after_participation(
            p,
            continued,
            first,
        ).currentstreak,
        after_participation(p, continued, first).maxstreak >= p.maxstreak,
        after_participation(p, continued, first).count == p.count + 1,
        !continued ==> after_participation(p, continued, first).currentstreak == 1,
{
}

/// For participants scoring one after another in a window that had `first`
/// as its first-participant record, whether each was told it was first
/// (`take_first` folded over `authors`).
pub open spec fn first_flags(first: u64, authors: Seq<u64>) -> Seq<bool>
    decreases authors.len(),
{
    if authors.len() == 0 {
        Seq::empty()
    } else {
        seq![is_first(first)] + first_flags(authors[0], authors.drop_first())
    }
}

/// The first-participant record after `authors` scored one after another.
pub open spec fn first_after(first: u64, authors: Seq<u64>) -> u64 {
    if authors.len() == 0 {
        first
    } else {
        authors.last()
    }
}

proof fn lemma_no_later_first(first: u64, authors: Seq<u64>)
    requires
        first != 0,
        forall|i: int| 0 <= i < authors.len() ==> authors[i] != 0,
    ensures
        first_flags(first, authors).len() == authors.len(),
        forall|i: int| 0 <= i < authors.len() ==> !(#[trigger] first_flags(first, authors)[i]),
    decreases authors.len(),
{
    if authors.len() > 0 {
        let r = authors.drop_first();
        assert forall|i: int| 0 <= i < r.len() implies r[i] != 0 by {
            assert(r[i] == authors[i + 1]);
        }
        lemma_no_later_first(authors[0], r);
        let f = first_flags(first, authors);
        assert forall|i: int| 0 <= i < authors.len() implies !(#[trigger] f[i]) by {
            if i > 0 {
                assert(f[i] == first_flags(authors[0], r)[i - 1]);
            }
        }
    }
}

/// In a window, only the first participant to score is told it is first
/// (and earns the 1.5 multiplier); every later one is not. Afterwards the
/// first-participant record holds the latest participant. (User ids are
/// never 0, the value that means "nobody yet".)
pub proof fn lemma_only_first_is_first(authors: Seq<u64>)
    requires
        forall|i: int| 0 <= i < authors.len() ==> authors[i] != 0,
    ensures
        first_flags(0, authors).len() == authors.len(),
        forall|i: int| 0 <= i < authors.len() ==> (#[trigger] first_flags(0, authors)[i]) == (i
            == 0),
        authors.len() > 0 ==> first_after(0, authors) == authors.last(),
{
    if authors.len() > 0 {
        let r = authors.drop_first();
        assert forall|i: int| 0 <= i < r.len() implies r[i] != 0 by {
            assert(r[i] == authors[i + 1]);
        }
        lemma_no_later_first(authors[0], r);
        let f = first_flags(0, authors);
        assert forall|i: int| 0 <= i < authors.len() implies (#[trigger] f[i]) == (i == 0) by {
            if i > 0 {
                assert(f[i] == first_flags(authors[0], r)[i - 1]);
            }
        }
    }
}

/// A streak carries over from one window to the next exactly for those
/// who took part in the closed one: the records written when a window
/// closes hold an author iff they took part, and a participation that
/// looks the author up there continues their streak (one more) or, when
/// they are missing, restarts it at one.
pub proof fn lemma_streak_across_windows(
    did: Seq<u64>,
    docs: Seq<Pastlist>,
    author: u64,
    p: Nine92er,
    first: bool,
)
    requires
        pastlist_of(did, docs),
        did.contains(author) ==> p.currentstreak < i32::MAX,
    ensures
        in_pastlist(docs, author) == did.contains(author),
        after_participation(p, in_pastlist(docs, author), first).currentstreak == (if did.contains(
            author,
        ) {
            p.currentstreak + 1
        } else {
            1
        }),
{
    if did.contains(author) {
        let i = choose|i: int| 0 <= i < did.len() && did[i] == author;
        assert(docs[i]._id == did[i] as i64);
    }
    if in_pastlist(docs, author) {
        let i = choose|i: int| 0 <= i < docs.len() && (#[trigger] docs[i])._id == author as i64;
        let d = did[i];
        assert(docs[i]._id == d as i64);
        assert(d as i64 == author as i64 ==> d == author) by (bit_vector);
        assert(did[i] == author);
    }
}

/// The streak multiplier is one plus a fifth of the streak (rounded
/// down for a streak of zero or more, toward zero below): it starts at 1
/// and grows by one every five days of streak, without bound; the first
/// participant earns 3 half-points per unit and the others 2.
pub proof fn lemma_streak_multiplier(s: int)
    ensures
        s >= 0 ==> streak_multiplier(s) == 1 + s / 5,
        s >= 0 ==> streak_multiplier(s + 5) == streak_multiplier(s) + 1,
        0 <= s < 5 ==> streak_multiplier(s) == 1,
        s < 0 ==> streak_multiplier(s) == 1 - (-s) / 5,
        halves_per_unit(true) == 3,
        halves_per_unit(false) == 2,
{
}

} // verus!
