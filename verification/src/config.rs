//! Fixed settings of the bot: the minute of the day that counts, the
//! channel and guild it serves, and the credentials it starts with.
use vstd::prelude::*;

verus! {

/// A time of day, as hour and minute.
pub struct TriggerTime {
    pub hour: u32,
    pub min: u32,
}

/// The channel the bot listens to and the guild that holds it.
pub struct ChannelConfig {
    pub channel_id: u64,
    pub guild_id: u64,
}

/// What the bot needs to start: its Discord token and where its database is.
pub struct BotConfig {
    pub bot_token: String,
    pub mongo_uri: String,
    pub database: String,
}

/// The hour of the trigger minute (besides 9, which always counts).
pub open spec fn trigger_hour() -> u32 {
    10
}

/// The minute of the trigger hour that counts.
pub open spec fn trigger_minute() -> u32 {
    42
}

/// The channel that the bot serves.
pub open spec fn bot_channel_id() -> u64 {
    619704668590833692
}

/// The guild that holds the bot channel.
pub open spec fn bot_guild_id() -> u64 {
    377637608848883723
}

/// The trigger time: 10:42.
pub fn trigger_time() -> (t: TriggerTime)
    ensures
        t.hour == trigger_hour(),
        t.min == trigger_minute(),
{
    TriggerTime { hour: 10, min: 42 }
}

/// The channel and guild the bot serves.
pub fn channel_conf() -> (c: ChannelConfig)
    ensures
        c.channel_id == bot_channel_id(),
        c.guild_id == bot_guild_id(),
{
    ChannelConfig { channel_id: 619704668590833692, guild_id: 377637608848883723 }
}

/// Whether a message or command comes from the bot channel; everything else
/// is ignored.
pub fn in_bot_channel(channel_id: u64) -> (r: bool)
    ensures
        r == (channel_id == bot_channel_id()),
        r == (channel_id == 619704668590833692),
{
    channel_id == channel_conf().channel_id
}

/// Whether `hour:minute` is a minute that counts: 9:42 or 10:42.
pub open spec fn is_929_minute(hour: int, minute: int) -> bool {
    (hour == 9 || hour == trigger_hour()) && minute == trigger_minute()
}

/// Decides whether a clock reading falls in the counting minute.
pub fn is_929_time(hour: u32, minute: u32) -> (r: bool)
    ensures
        r == is_929_minute(hour as int, minute as int),
        r == ((hour == 9 || hour == 10) && minute == 42),
{
    let t = trigger_time();
    (hour == 9 || hour == t.hour) && minute == t.min
}

/// Exactly two minutes of the day count: 9:42 and 10:42.
pub proof fn lemma_929_minutes(hour: int, minute: int)
    ensures
        is_929_minute(hour, minute) <==> ((hour == 9 || hour == 10) && minute == 42),
{
}

} // verus!
