use spacecases::data::{Skin, Sticker};
use spacecases::embed::{
    author_not_registered_message, command_error_message, get_user_avatar_url, get_welcome_embed, is_yes_button,
    item_quality_color, member_not_registered_message, skin_embed, sticker_embed, welcome_message,
};
use std::collections::HashMap;

#[test]
fn quality_colours() {
    assert_eq!(item_quality_color("consumer grade"), Ok(0xb0c3d9));
    assert_eq!(item_quality_color("base grade"), Ok(0xb0c3d9));
    assert_eq!(item_quality_color("industrial grade"), Ok(0x5e98d9));
    assert_eq!(item_quality_color("mil-spec"), Ok(0x4b69ff));
    assert_eq!(item_quality_color("high grade"), Ok(0x4b69ff));
    assert_eq!(item_quality_color("restricted"), Ok(0x8847ff));
    assert_eq!(item_quality_color("remarkable"), Ok(0x8847ff));
    assert_eq!(item_quality_color("classified"), Ok(0xd32ee6));
    assert_eq!(item_quality_color("exotic"), Ok(0xd32ee6));
    assert_eq!(item_quality_color("covert"), Ok(0xeb4b4b));
    assert_eq!(item_quality_color("extraordinary"), Ok(0xeb4b4b));
    assert_eq!(item_quality_color("contraband"), Ok(0xffae39));
}

#[test]
fn unknown_quality_is_an_error() {
    assert_eq!(item_quality_color("Covert"), Err("Invalid item quality: Covert".to_string()));
    assert_eq!(item_quality_color(""), Err("Invalid item quality: ".to_string()));
}

fn skin(quality: &str) -> Skin {
    Skin {
        formatted_name: "AK-47 | Redline".to_string(),
        description: "A rifle.".to_string(),
        flavor_text: "Red.".to_string(),
        quality: quality.to_string(),
        inspect_urls: [0, 1, 2, 3, 4].map(|i| format!("i{}", i)),
        image_urls: [0, 1, 2, 3, 4].map(|i| format!("img{}", i)),
        stattrak_available: true,
        souvenir_available: false,
        containers_found_in: vec!["operation phoenix weapon case".to_string(), "huntsman-weapon case".to_string()],
        weapon_type: "rifle".to_string(),
        min_float: "0.10".to_string(),
        max_float: "0.70".to_string(),
        worst_condition_index: 4,
        best_condition_index: 1,
        variations: HashMap::new(),
    }
}

#[test]
fn skin_embed_contents() {
    let e = skin_embed(&skin("classified")).unwrap();
    assert_eq!(e.title, "AK-47 | Redline");
    assert_eq!(e.description, "*Red.*\nA rifle.");
    assert_eq!(e.colour, 0xd32ee6);
    assert_eq!(e.image, "img0");
    assert_eq!(e.fields.len(), 3);
    assert_eq!(e.fields[0].name, "Quality");
    assert_eq!(e.fields[0].value, "Classified");
    assert_eq!(e.fields[1].name, "Float Range");
    assert_eq!(e.fields[1].value, "0.10 - 0.70");
    assert_eq!(e.fields[2].name, "Found In");
    assert_eq!(e.fields[2].value, "• Operation Phoenix Weapon Case\n• Huntsman-Weapon Case");
    assert!(e.fields.iter().all(|f| f.inline));
}

#[test]
fn skin_embed_with_bad_quality() {
    assert_eq!(skin_embed(&skin("legendary")).unwrap_err(), "Invalid item quality: legendary");
}

#[test]
fn sticker_embed_contents() {
    let s = Sticker {
        formatted_name: "Sticker | Crown (Foil)".to_string(),
        description: "Shiny.".to_string(),
        flavor_text: String::new(),
        quality: "exotic".to_string(),
        inspect_urls: ["i".to_string()],
        image_urls: ["s.png".to_string()],
        stattrak_available: false,
        souvenir_available: false,
        containers_found_in: vec![],
    };
    let e = sticker_embed(&s).unwrap();
    assert_eq!(e.title, "Sticker | Crown (Foil)");
    assert_eq!(e.description, "Shiny.");
    assert_eq!(e.colour, 0xd32ee6);
    assert_eq!(e.image, "s.png");
    assert_eq!(e.fields.len(), 2);
    assert_eq!(e.fields[0].value, "Exotic");
    assert_eq!(e.fields[1].name, "Found In");
    assert_eq!(e.fields[1].value, "");
}

#[test]
fn messages() {
    assert_eq!(
        author_not_registered_message(),
        "You are **not** registered! Use </register:1241073780978090179> to register"
    );
    assert_eq!(member_not_registered_message("Bob"), "**Bob** is **not** registered!");
    assert_eq!(
        command_error_message("flip"),
        "An error has occured while executing command `flip`, it has been reported to the development team"
    );
    assert!(welcome_message().starts_with("Hello! My name is **SpaceCases**\n    \n    I am a CS2"));
    assert!(welcome_message().ends_with("Enjoy! - [Spacerulerwill](https://github.com/Spacerulerwill)"));
}

#[test]
fn avatar_and_buttons() {
    assert_eq!(get_user_avatar_url(Some("a.png".to_string()), "d.png".to_string()), "a.png");
    assert_eq!(get_user_avatar_url(None, "d.png".to_string()), "d.png");
    assert!(is_yes_button("y"));
    assert!(!is_yes_button("n"));
    assert!(!is_yes_button("yes"));
}

#[test]
fn welcome_embed_uses_the_bot_avatar() {
    let e = get_welcome_embed(Some("own.png".to_string()), "default.png".to_string());
    assert_eq!(e.thumbnail, "own.png");
    assert_eq!(e.description, welcome_message());
    assert!(e.description.starts_with("Hello! My name is **SpaceCases**"));
    let e = get_welcome_embed(None, "default.png".to_string());
    assert_eq!(e.thumbnail, "default.png");
}
