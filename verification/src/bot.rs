//! The bot's own decisions: its rotating status, where it sends its welcome
//! message, and how it reacts to gateway events.
use vstd::prelude::*;
use vstd::string::StringExecFns;
use crate::text::{decimal, decimal_string};

verus! {

/// How many status messages the bot cycles through.
pub const STATUS_MESSAGE_COUNT: usize = 2;

/// The status message number `step`: a hint at the help command, or the
/// numbers of users and servers.
pub fn status_message(step: usize, users: u64, guilds: u64) -> (m: String)
    requires
        step < STATUS_MESSAGE_COUNT,
    ensures
        step == 0 ==> m@ == "Use /help"@,
        step == 1 ==> m@ == decimal(users as nat) + " Users | "@ + decimal(guilds as nat) + " Guilds"@,
{
    if step == 0 {
        "Use /help".to_owned()
    } else {
        let mut m = decimal_string(users);
        m.append(" Users | ");
        m.append(decimal_string(guilds).as_str());
        m.append(" Guilds");
        m
    }
}

/// The status message shown after message number `step`.
pub fn next_status_step(step: usize) -> (next: usize)
    requires
        step < STATUS_MESSAGE_COUNT,
    ensures
        next < STATUS_MESSAGE_COUNT,
        next == (step + 1) % (STATUS_MESSAGE_COUNT as int),
{
    (step + 1) % STATUS_MESSAGE_COUNT
}

/// Where the welcome message is tried next.
#[derive(Debug, Clone, Copy, PartialEq, Eq, Structural)]
pub enum WelcomeTarget {
    /// The server's system channel.
    SystemChannel,
    /// The channel at this position in the server's channel list.
    Channel(usize),
    /// A direct message to the server's owner.
    OwnerDm,
}

/// The first place the welcome message is tried: the system channel if the
/// server has one, else its first channel, else its owner.
pub fn first_welcome_target(has_system_channel: bool, channel_count: usize) -> (t: WelcomeTarget)
    ensures
        has_system_channel ==> t == WelcomeTarget::SystemChannel,
        !has_system_channel && channel_count > 0 ==> t == WelcomeTarget::Channel(0),
        !has_system_channel && channel_count == 0 ==> t == WelcomeTarget::OwnerDm,
{
    if has_system_channel {
        WelcomeTarget::SystemChannel
    } else if channel_count > 0 {
        WelcomeTarget::Channel(0)
    } else {
        WelcomeTarget::OwnerDm
    }
}

/// How many more attempts can follow an attempt at `t`.
pub open spec fn welcome_rank(t: WelcomeTarget, channel_count: nat) -> nat {
    match t {
        WelcomeTarget::SystemChannel => 1,
        WelcomeTarget::Channel(i) => if i < channel_count {
            (channel_count - i) as nat
        } else {
            1
        },
        WelcomeTarget::OwnerDm => 0,
    }
}

/// Where the welcome message is tried after an attempt at `current`, given
/// whether that attempt sent it; none when the bot is done (it was sent, or
/// the owner was tried last). A failed system channel falls back to the
/// owner; the channels are tried in order, then the owner. Every attempt
/// leaves fewer to come.
pub fn next_welcome_target(current: WelcomeTarget, sent: bool, channel_count: usize) -> (next: Option<
    WelcomeTarget,
>)
    ensures
        sent ==> next is None,
        !sent ==> next == match current {
            WelcomeTarget::SystemChannel => Some(WelcomeTarget::OwnerDm),
            WelcomeTarget::Channel(i) => if i + 1 < channel_count {
                Some(WelcomeTarget::Channel((i + 1) as usize))
            } else {
                Some(WelcomeTarget::OwnerDm)
            },
            WelcomeTarget::OwnerDm => None::<WelcomeTarget>,
        },
        next matches Some(t) ==> welcome_rank(t, channel_count as nat) < welcome_rank(
            current,
            channel_count as nat,
        ),
{
    if sent {
        return None;
    }
    match current {
        WelcomeTarget::SystemChannel => Some(WelcomeTarget::OwnerDm),
        WelcomeTarget::Channel(i) => {
            if i < channel_count && i + 1 < channel_count {
                Some(WelcomeTarget::Channel(i + 1))
            } else {
                Some(WelcomeTarget::OwnerDm)
            }
        },
        WelcomeTarget::OwnerDm => None,
    }
}

/// A gateway event, as far as the bot tells events apart.
#[derive(Debug, Clone, Copy, PartialEq, Eq, Structural)]
pub enum BotEvent {
    /// The bot logged in.
    Ready,
    /// A server became available; `is_new` tells whether the bot just joined it.
    GuildCreate { is_new: Option<bool> },
    /// Any other event.
    Other,
}

/// What the bot does on an event.
#[derive(Debug, Clone, Copy, PartialEq, Eq, Structural)]
pub enum EventAction {
    /// Start cycling the status messages.
    StartStatusCycle,
    /// Send the welcome message to the server.
    SendWelcome,
    /// Nothing.
    Nothing,
}

/// What the bot does on an event: on login it starts cycling its status; on
/// joining a server (only when the event says it is new) it sends its
/// welcome message.
pub fn event_action(event: BotEvent) -> (a: EventAction)
    ensures
        a == match event {
            BotEvent::Ready => EventAction::StartStatusCycle,
            BotEvent::GuildCreate { is_new } => if is_new == Some(true) {
                EventAction::SendWelcome
            } else {
                EventAction::Nothing
            },
            BotEvent::Other => EventAction::Nothing,
        },
{
    match event {
        BotEvent::Ready => EventAction::StartStatusCycle,
        BotEvent::GuildCreate { is_new } => {
            if is_new.unwrap_or(false) {
                EventAction::SendWelcome
            } else {
                EventAction::Nothing
            }
        },
        BotEvent::Other => EventAction::Nothing,
    }
}


/// The status messages repeat: two steps lead back to the same message.
pub proof fn law_status_cycle_period(step: int)
    requires
        0 <= step < STATUS_MESSAGE_COUNT,
    ensures
        ((step + 1) % (STATUS_MESSAGE_COUNT as int) + 1) % (STATUS_MESSAGE_COUNT as int) == step,
{
}

} // verus!
