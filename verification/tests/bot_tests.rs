use spacecases::bot::{
    event_action, first_welcome_target, next_status_step, next_welcome_target, status_message, BotEvent,
    EventAction, WelcomeTarget,
};

#[test]
fn status_messages_alternate() {
    assert_eq!(status_message(0, 5, 7), "Use /help");
    assert_eq!(status_message(1, 1234, 56), "1234 Users | 56 Guilds");
    assert_eq!(next_status_step(0), 1);
    assert_eq!(next_status_step(1), 0);
}

#[test]
fn welcome_targets() {
    assert_eq!(first_welcome_target(true, 3), WelcomeTarget::SystemChannel);
    assert_eq!(first_welcome_target(false, 3), WelcomeTarget::Channel(0));
    assert_eq!(first_welcome_target(false, 0), WelcomeTarget::OwnerDm);
    assert_eq!(next_welcome_target(WelcomeTarget::SystemChannel, false, 3), Some(WelcomeTarget::OwnerDm));
    assert_eq!(next_welcome_target(WelcomeTarget::SystemChannel, true, 3), None);
    assert_eq!(next_welcome_target(WelcomeTarget::Channel(0), false, 3), Some(WelcomeTarget::Channel(1)));
    assert_eq!(next_welcome_target(WelcomeTarget::Channel(2), false, 3), Some(WelcomeTarget::OwnerDm));
    assert_eq!(next_welcome_target(WelcomeTarget::Channel(1), true, 3), None);
    assert_eq!(next_welcome_target(WelcomeTarget::OwnerDm, false, 3), None);
}

#[test]
fn events() {
    assert_eq!(event_action(BotEvent::Ready), EventAction::StartStatusCycle);
    assert_eq!(event_action(BotEvent::GuildCreate { is_new: Some(true) }), EventAction::SendWelcome);
    assert_eq!(event_action(BotEvent::GuildCreate { is_new: Some(false) }), EventAction::Nothing);
    assert_eq!(event_action(BotEvent::GuildCreate { is_new: None }), EventAction::Nothing);
    assert_eq!(event_action(BotEvent::Other), EventAction::Nothing);
}
