use spacecases::commands::{
    account_flow_step, autocomplete, balance_reply, claim_reply, deduction_reply, find_item, flip_bet_error, normalize_guess,
    flip_reply, flip_won, item_missing_message, pick_quiz_skin, quiz_answer, quiz_skin, quiz_outcome, quiz_question,
    register_reply, session_amount_error, session_fields, transfer_check, transfer_outcome, AccountAction,
    ClaimReply, ClaimRow, CoinSideChoice, FlowAction, FlowEvent, FlowState, Reply, Tone,
};
use spacecases::data::{build_game_data, AutocompleteData, Item, Skin, Sticker};
use std::collections::HashMap;

#[test]
fn balance_replies() {
    assert_eq!(balance_reply(None, Some(12345)), Reply::Success("Your balance is: **$123.45**".to_string()));
    assert_eq!(
        balance_reply(Some("Ann"), Some(5)),
        Reply::Success("**Ann's** balance is: **$0.05**".to_string())
    );
    assert_eq!(balance_reply(Some("Ann"), None), Reply::Error("**Ann** is **not** registered!".to_string()));
    assert_eq!(
        balance_reply(None, None),
        Reply::Error("You are **not** registered! Use </register:1241073780978090179> to register".to_string())
    );
    assert_eq!(balance_reply(None, Some(-1)), Reply::Success("Your balance is: **$184467440737095516.15**".to_string()));
}

#[test]
fn claim_replies() {
    let r = claim_reply(Some(ClaimRow { update_successful: true, change: 12500, balance: 22500, claim_streak: 2 }));
    match r {
        ClaimReply::Claimed { title, description, footer, fields } => {
            assert_eq!(title, "You have successfully claimed your daily reward");
            assert_eq!(description, "Come back **tomorrow** to claim again!");
            assert_eq!(footer, "Note: claim streaks reset after 1 day without claiming");
            let pairs: Vec<(String, String)> = fields.iter().map(|f| (f.name.clone(), f.value.clone())).collect();
            assert_eq!(
                pairs,
                vec![
                    ("Amount".to_string(), "$125.00".to_string()),
                    ("New Balance".to_string(), "$225.00".to_string()),
                    ("Streak 🔥".to_string(), "2".to_string()),
                ]
            );
        }
        other => panic!("unexpected {:?}", other),
    }
    match claim_reply(Some(ClaimRow { update_successful: false, change: 0, balance: 0, claim_streak: 0 })) {
        ClaimReply::TooSoon(r) => assert_eq!(r, Reply::Error("You can claim again tomorrow!".to_string())),
        other => panic!("unexpected {:?}", other),
    }
    assert!(matches!(claim_reply(None), ClaimReply::NotRegistered(Reply::Error(_))));
}

#[test]
fn amounts_and_deductions() {
    assert_eq!(
        flip_bet_error(0),
        Some(Reply::Error("You **must** bet an amount greater than zero".to_string()))
    );
    assert_eq!(flip_bet_error(1), None);
    assert_eq!(
        session_amount_error(0),
        Some(Reply::Error("Amount of balance **must** must be greater than zero".to_string()))
    );
    assert_eq!(session_amount_error(500), None);
    assert_eq!(deduction_reply(Some(true)), None);
    assert_eq!(deduction_reply(Some(false)), Some(Reply::Error("You do not have enough balance!".to_string())));
    assert_eq!(
        deduction_reply(None),
        Some(Reply::Error("You are **not** registered! Use </register:1241073780978090179> to register".to_string()))
    );
}

#[test]
fn flip_decisions() {
    assert!(flip_won(CoinSideChoice::CounterTerrorist, true));
    assert!(!flip_won(CoinSideChoice::CounterTerrorist, false));
    assert!(flip_won(CoinSideChoice::Terrorist, false));
    assert!(!flip_won(CoinSideChoice::Terrorist, true));
    let won = flip_reply(true, true, 100, 100, Some(true)).unwrap();
    assert_eq!(won.title, "Counter Terrorists Win!");
    assert!(won.counter_terrorists_won);
    assert_eq!(won.tone, Tone::DarkGreen);
    assert_eq!(won.description, "You won **$1.00**");
    let lost = flip_reply(false, false, 250, 0, Some(true)).unwrap();
    assert_eq!(lost.title, "Terrorists Win!");
    assert_eq!(lost.tone, Tone::Red);
    assert_eq!(lost.description, "You lost **$2.50**");
    assert_eq!(
        flip_reply(true, true, 1, 1, Some(false)).unwrap_err(),
        Reply::Error("You do not have enough balance to bet this much!".to_string())
    );
    assert!(matches!(flip_reply(true, true, 1, 1, None), Err(Reply::Error(_))));
}

#[test]
fn register_replies() {
    let r = register_reply(0);
    assert_eq!(r.reply, Reply::Error("You are **already** registered!".to_string()));
    assert!(!r.increment_user_count);
    let r = register_reply(1);
    assert_eq!(
        r.reply,
        Reply::Success("Registered! Use </claim:1241073780978090177> to claim your daily balance".to_string())
    );
    assert!(r.increment_user_count);
}

#[test]
fn delete_flow() {
    let (s, a) = account_flow_step(AccountAction::Delete, FlowState::CheckingAccount, FlowEvent::AccountExists(true));
    assert_eq!(s, FlowState::AwaitingAnswer);
    assert!(matches!(a, FlowAction::AskYesNo { ref question, .. } if question.contains("delete your SpaceCases account")));
    let (s, a) = account_flow_step(AccountAction::Delete, s, FlowEvent::Answer(Some(true)));
    assert_eq!((s, a), (FlowState::Applying, FlowAction::ApplyChange));
    let (s, a) = account_flow_step(AccountAction::Delete, FlowState::Applying, FlowEvent::RowsAffected(1));
    assert_eq!(s, FlowState::Done);
    assert_eq!(
        a,
        FlowAction::UpdatePrompt {
            tone: Tone::DarkGreen,
            text: "Your account has been **deleted**. You can use </register:1241073780978090179> at any time to create a new one".to_string(),
            decrement_user_count: true,
        }
    );
    let (_, a) = account_flow_step(AccountAction::Delete, FlowState::Applying, FlowEvent::RowsAffected(0));
    assert_eq!(
        a,
        FlowAction::UpdatePrompt {
            tone: Tone::DarkRed,
            text: "**Failed** to delete account as it no longer exists".to_string(),
            decrement_user_count: false,
        }
    );
    let (s, a) = account_flow_step(AccountAction::Delete, FlowState::CheckingAccount, FlowEvent::AccountExists(false));
    assert_eq!(s, FlowState::Done);
    assert!(matches!(a, FlowAction::SendNotRegistered(Reply::Error(_))));
    let (s, a) = account_flow_step(AccountAction::Delete, FlowState::AwaitingAnswer, FlowEvent::Answer(None));
    assert_eq!((s, a), (FlowState::Done, FlowAction::Nothing));
    let (_, a) = account_flow_step(AccountAction::Delete, FlowState::AwaitingAnswer, FlowEvent::Answer(Some(false)));
    assert_eq!(
        a,
        FlowAction::UpdatePrompt { tone: Tone::Red, text: "Account deletion **cancelled**".to_string(), decrement_user_count: false }
    );
}

#[test]
fn reset_flow() {
    let (_, a) = account_flow_step(AccountAction::Reset, FlowState::CheckingAccount, FlowEvent::AccountExists(true));
    assert_eq!(
        a,
        FlowAction::AskYesNo {
            question: "Are you **sure** you want to reset your SpaceCases progress? This action is **irreversible!**".to_string(),
            timeout_message: "Account reset **cancelled** as you did not respond in time".to_string(),
        }
    );
    let (_, a) = account_flow_step(AccountAction::Reset, FlowState::Applying, FlowEvent::RowsAffected(1));
    assert_eq!(
        a,
        FlowAction::UpdatePrompt {
            tone: Tone::DarkGreen,
            text: "Your account statics have been successfully reset".to_string(),
            decrement_user_count: false,
        }
    );
    let (s, a) = account_flow_step(AccountAction::Reset, FlowState::Done, FlowEvent::RowsAffected(1));
    assert_eq!((s, a), (FlowState::Done, FlowAction::Nothing));
}

#[test]
fn session_and_transfer() {
    let f = session_fields(150);
    let pairs: Vec<(String, String)> = f.iter().map(|f| (f.name.clone(), f.value.clone())).collect();
    assert_eq!(
        pairs,
        vec![
            ("Remaining".to_string(), "$1.50".to_string()),
            ("Spent".to_string(), "$0.00".to_string()),
            ("Return".to_string(), "$0.00".to_string()),
        ]
    );
    assert_eq!(transfer_check(0, 1, 2), Some(Reply::Error("You **must** transfer an amount greater than zero".to_string())));
    assert_eq!(transfer_check(5, 1, 1), Some(Reply::Error("You cannot transfer balance to yourself!".to_string())));
    assert_eq!(transfer_check(5, 1, 2), None);
    let o = transfer_outcome(1, 1234, "Zed");
    assert!(o.commit);
    assert_eq!(o.reply, Reply::Success("Successfully transferred **$12.34** to **Zed**".to_string()));
    let o = transfer_outcome(0, 1234, "Zed");
    assert!(!o.commit);
    assert_eq!(o.reply, Reply::Error("**Zed** is **not** registered!".to_string()));
}

fn sticker(name: &str) -> Sticker {
    Sticker {
        formatted_name: name.to_string(),
        description: String::new(),
        flavor_text: String::new(),
        quality: "exotic".to_string(),
        inspect_urls: ["i".to_string()],
        image_urls: ["s.png".to_string()],
        stattrak_available: false,
        souvenir_available: false,
        containers_found_in: vec![],
    }
}

#[test]
fn item_lookup_and_messages() {
    let g = build_game_data(vec![], vec![("crownfoil".to_string(), sticker("Sticker | Crown (Foil)"))], vec![]);
    assert!(matches!(find_item(&g, "Sticker | Crown (Foil)"), None));
    assert!(matches!(find_item(&g, "Crown (Foil)"), Some(Item::Sticker(_))));
    assert!(find_item(&g, "crown").is_none());
    assert_eq!(item_missing_message("krown", Some("crownfoil")), "Item `krown` does not exist! Did you mean `crownfoil`?");
    assert_eq!(item_missing_message("krown", None), "Item **krown** does not exist!");
}

#[test]
fn autocomplete_filters_by_normalized_prefix() {
    let data = AutocompleteData {
        formatted: vec!["AK-47 | Redline".to_string(), "AWP | Asiimov".to_string(), "AK-47 | Vulcan".to_string()],
        unformatted: vec!["ak47redline".to_string(), "awpasiimov".to_string(), "ak47vulcan".to_string()],
    };
    assert_eq!(autocomplete(&data, "ak"), vec!["AK-47 | Redline", "AK-47 | Vulcan"]);
    assert_eq!(autocomplete(&data, ""), vec!["AK-47 | Redline", "AWP | Asiimov", "AK-47 | Vulcan"]);
    assert!(autocomplete(&data, "m4").is_empty());
    let uneven = AutocompleteData { formatted: vec!["A".to_string()], unformatted: vec!["a".to_string(), "ab".to_string()] };
    assert_eq!(autocomplete(&uneven, "a"), vec!["A"]);
}

#[test]
fn quiz_pieces() {
    let names = vec!["x".to_string(), "y".to_string()];
    for _ in 0..20 {
        let picked = pick_quiz_skin(&names).unwrap();
        assert!(names.contains(&picked));
    }
    assert_eq!(pick_quiz_skin(&Vec::new()), None);
    assert_eq!(quiz_answer("AK-47 | Redline"), "redline");
    assert_eq!(quiz_answer("M4A4 |  Howl  | extra"), "howl");
    assert_eq!(quiz_answer("Glock-18 | Fade"), "fade");
    assert_eq!(quiz_answer("|"), "");
    let o = quiz_outcome("redline", Some(true));
    assert_eq!(o.reply, Reply::Success("You guessed **correctly!** You win **$5**".to_string()));
    assert_eq!(o.payout, 750);
    let o = quiz_outcome("redline", Some(false));
    assert_eq!(o.reply, Reply::Error("You guessed **incorrectly!** The correct answer was `redline`".to_string()));
    assert_eq!(o.payout, 0);
    let o = quiz_outcome("redline", None);
    assert_eq!(
        o.reply,
        Reply::Error("You **failed** to respond within 10 seconds! The correct answer was `redline`".to_string())
    );
}

fn skin_named(name: &str) -> Skin {
    Skin {
        formatted_name: name.to_string(),
        description: String::new(),
        flavor_text: String::new(),
        quality: "covert".to_string(),
        inspect_urls: [0, 1, 2, 3, 4].map(|i| format!("i{}", i)),
        image_urls: [0, 1, 2, 3, 4].map(|i| format!("img{}", i)),
        stattrak_available: false,
        souvenir_available: false,
        containers_found_in: Vec::new(),
        weapon_type: "rifle".to_string(),
        min_float: "0.00".to_string(),
        max_float: "1.00".to_string(),
        worst_condition_index: 4,
        best_condition_index: 0,
        variations: HashMap::new(),
    }
}

#[test]
fn quiz_question_of_a_skin() {
    let q = quiz_question(&skin_named("AWP | Dragon Lore"));
    assert_eq!(q.title, "Guess the skin!");
    assert_eq!(
        q.description,
        "Reply with the name of the skin within 10 seconds!\nDo **not** include the wear or the weapon name!"
    );
    assert_eq!(q.image, "img0");
    assert_eq!(q.answer, "dragon lore");
}

#[test]
fn guesses_are_trimmed_and_lowercased() {
    assert_eq!(normalize_guess("  Dragon Lore \n"), "dragon lore");
    assert_eq!(normalize_guess("REDLINE"), "redline");
    assert_eq!(normalize_guess(""), "");
}

#[test]
fn quiz_skin_lookup() {
    let g = build_game_data(
        vec![("awpdragonlore".to_string(), skin_named("AWP | Dragon Lore"))],
        vec![("crownfoil".to_string(), sticker("Sticker | Crown (Foil)"))],
        vec![],
    );
    match quiz_skin(&g, "awpdragonlore") {
        Ok(skin) => assert_eq!(skin.formatted_name, "AWP | Dragon Lore"),
        Err(item) => panic!("unexpected {:?}", item),
    }
    assert!(matches!(quiz_skin(&g, "crownfoil"), Err(Item::Sticker(_))));
}
