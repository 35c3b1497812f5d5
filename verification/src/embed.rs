//! The contents of the bot's embeds and replies: colours, texts and fields.
use vstd::prelude::*;
use vstd::string::StringExecFns;
use crate::data::{Skin, Sticker};
use crate::text::{join, joined, lemma_map_take_push, lemma_texts_push, same_text, texts, title_case, to_title_case};

verus! {

/// The mention that runs the register command.
pub const REGISTER_MENTION: &'static str = "</register:1241073780978090179>";

/// The mention that runs the claim command.
pub const CLAIM_MENTION: &'static str = "</claim:1241073780978090177>";

/// The embed colour of an item quality, as a 24-bit RGB value.
pub open spec fn quality_colour(q: Seq<char>) -> Option<u32> {
    if q == "consumer grade"@ || q == "base grade"@ {
        Some(0xb0c3d9)
    } else if q == "industrial grade"@ {
        Some(0x5e98d9)
    } else if q == "mil-spec"@ || q == "high grade"@ {
        Some(0x4b69ff)
    } else if q == "restricted"@ || q == "remarkable"@ {
        Some(0x8847ff)
    } else if q == "classified"@ || q == "exotic"@ {
        Some(0xd32ee6)
    } else if q == "covert"@ || q == "extraordinary"@ {
        Some(0xeb4b4b)
    } else if q == "contraband"@ {
        Some(0xffae39)
    } else {
        None
    }
}

/// The embed colour of an item from its item quality; an unknown quality is
/// an error naming it.
pub fn item_quality_color(quality: &str) -> (r: Result<u32, String>)
    ensures
        match r {
            Ok(c) => quality_colour(quality@) == Some(c),
            Err(m) => quality_colour(quality@) is None && m@ == "Invalid item quality: "@ + quality@,
        },
{
    if same_text(quality, "consumer grade") || same_text(quality, "base grade") {
        Ok(0xb0c3d9)
    } else if same_text(quality, "industrial grade") {
        Ok(0x5e98d9)
    } else if same_text(quality, "mil-spec") || same_text(quality, "high grade") {
        Ok(0x4b69ff)
    } else if same_text(quality, "restricted") || same_text(quality, "remarkable") {
        Ok(0x8847ff)
    } else if same_text(quality, "classified") || same_text(quality, "exotic") {
        Ok(0xd32ee6)
    } else if same_text(quality, "covert") || same_text(quality, "extraordinary") {
        Ok(0xeb4b4b)
    } else if same_text(quality, "contraband") {
        Ok(0xffae39)
    } else {
        let mut m = "Invalid item quality: ".to_owned();
        m.append(quality);
        Err(m)
    }
}

/// One field of an embed.
#[derive(Debug)]
pub struct EmbedField {
    pub name: String,
    pub value: String,
    pub inline: bool,
}

/// The embed that shows an item.
#[derive(Debug)]
pub struct ItemEmbed {
    pub title: String,
    pub description: String,
    pub colour: u32,
    pub image: String,
    pub fields: Vec<EmbedField>,
}

/// A field with the given name and text that is laid out inline.
fn inline_field(name: &str, value: String) -> (f: EmbedField)
    ensures
        f.name@ == name@,
        f.value == value,
        f.inline,
{
    EmbedField { name: name.to_owned(), value, inline: true }
}

/// One bulleted line per container name, in title case.
pub open spec fn found_in_text(containers: Seq<String>) -> Seq<char> {
    joined(
        containers.map_values(|line: String| "• "@ + title_case(line@)),
        "\n"@,
    )
}

/// The Found In text has one line per container, in order: none for no
/// container, `• ` and the container's name in title case for one, and each
/// further container adds a line break and its own line.
pub proof fn law_found_in_lines(containers: Seq<String>, c: String)
    ensures
        found_in_text(Seq::<String>::empty()) == Seq::<char>::empty(),
        found_in_text(seq![c]) == "• "@ + title_case(c@),
        containers.len() > 0 ==> found_in_text(containers.push(c)) == found_in_text(containers) + "\n"@
            + "• "@ + title_case(c@),
{
    let f = |line: String| "• "@ + title_case(line@);
    assert(Seq::<String>::empty().map_values(f) =~= Seq::<Seq<char>>::empty());
    assert(seq![c].map_values(f) =~= seq![f(c)]);
    let m = containers.push(c).map_values(f);
    assert(m.drop_last() =~= containers.map_values(f));
    assert(m.last() == f(c));
    if containers.len() > 0 {
        assert(m.len() > 1);
    }
}

/// The list of containers an item is found in, one bulleted line each.
fn found_in(containers: &Vec<String>) -> (s: String)
    ensures
        s@ == found_in_text(containers@),
{
    let mut lines: Vec<String> = Vec::new();
    let mut i: usize = 0;
    while i < containers.len()
        invariant
            i <= containers.len(),
            texts(lines@) == containers@.take(i as int).map_values(
                |line: String| "• "@ + title_case(line@),
            ),
        decreases containers.len() - i,
    {
        let ghost before = lines@;
        let mut line = "• ".to_owned();
        let titled = to_title_case(containers[i].as_str());
        line.append(titled.as_str());
        lines.push(line);
        proof {
            lemma_texts_push(before, line);
            lemma_map_take_push(containers@, i as int, |line: String| "• "@ + title_case(line@));
        }
        i = i + 1;
    }
    assert(containers@.take(containers.len() as int) =~= containers@);
    assert(texts(lines@) =~= lines@.map_values(|p: String| p@));
    join(&lines, "\n")
}

/// The embed of a skin: its name; its flavor text in italics above its
/// description; the colour of its quality; its first image; and the fields
/// Quality, Float Range and Found In.
pub fn skin_embed(skin: &Skin) -> (r: Result<ItemEmbed, String>)
    ensures
        match r {
            Ok(e) => {
                &&& quality_colour(skin.quality@) == Some(e.colour)
                &&& e.title == skin.formatted_name
                &&& e.description@ == "*"@ + skin.flavor_text@ + "*\n"@ + skin.description@
                &&& e.image == skin.image_urls@[0]
                &&& e.fields.len() == 3
                &&& e.fields@[0].name@ == "Quality"@ && e.fields@[0].value@ == title_case(skin.quality@)
                &&& e.fields@[1].name@ == "Float Range"@ && e.fields@[1].value@ == skin.min_float@ + " - "@
                    + skin.max_float@
                &&& e.fields@[2].name@ == "Found In"@ && e.fields@[2].value@ == found_in_text(
                    skin.containers_found_in@,
                )
                &&& forall|i: int| 0 <= i < 3 ==> (#[trigger] e.fields@[i]).inline
            },
            Err(m) => quality_colour(skin.quality@) is None && m@ == "Invalid item quality: "@
                + skin.quality@,
        },
{
    let found = found_in(&skin.containers_found_in);
    let colour = match item_quality_color(skin.quality.as_str()) {
        Ok(c) => c,
        Err(m) => {
            return Err(m);
        },
    };
    let mut description = "*".to_owned();
    description.append(skin.flavor_text.as_str());
    description.append("*\n");
    description.append(skin.description.as_str());
    let mut float_range = skin.min_float.clone();
    float_range.append(" - ");
    float_range.append(skin.max_float.as_str());
    let mut fields: Vec<EmbedField> = Vec::new();
    fields.push(inline_field("Quality", to_title_case(skin.quality.as_str())));
    fields.push(inline_field("Float Range", float_range));
    fields.push(inline_field("Found In", found));
    Ok(
        ItemEmbed {
            title: skin.formatted_name.clone(),
            description,
            colour,
            image: skin.image_urls[0].clone(),
            fields,
        },
    )
}

/// The embed of a sticker: its name, its description, the colour of its
/// quality, its image, and the fields Quality and Found In.
pub fn sticker_embed(sticker: &Sticker) -> (r: Result<ItemEmbed, String>)
    ensures
        match r {
            Ok(e) => {
                &&& quality_colour(sticker.quality@) == Some(e.colour)
                &&& e.title == sticker.formatted_name
                &&& e.description == sticker.description
                &&& e.image == sticker.image_urls@[0]
                &&& e.fields.len() == 2
                &&& e.fields@[0].name@ == "Quality"@ && e.fields@[0].value@ == title_case(sticker.quality@)
                &&& e.fields@[1].name@ == "Found In"@ && e.fields@[1].value@ == found_in_text(
                    sticker.containers_found_in@,
                )
                &&& forall|i: int| 0 <= i < 2 ==> (#[trigger] e.fields@[i]).inline
            },
            Err(m) => quality_colour(sticker.quality@) is None && m@ == "Invalid item quality: "@
                + sticker.quality@,
        },
{
    let found = found_in(&sticker.containers_found_in);
    let colour = match item_quality_color(sticker.quality.as_str()) {
        Ok(c) => c,
        Err(m) => {
            return Err(m);
        },
    };
    let mut fields: Vec<EmbedField> = Vec::new();
    fields.push(inline_field("Quality", to_title_case(sticker.quality.as_str())));
    fields.push(inline_field("Found In", found));
    Ok(
        ItemEmbed {
            title: sticker.formatted_name.clone(),
            description: sticker.description.clone(),
            colour,
            image: sticker.image_urls[0].clone(),
            fields,
        },
    )
}

/// The avatar of a user: their own if they set one, else the default one.
pub fn get_user_avatar_url(avatar_url: Option<String>, default_avatar_url: String) -> (url: String)
    ensures
        url == match avatar_url {
            Some(u) => u,
            None => default_avatar_url,
        },
{
    match avatar_url {
        Some(url) => url,
        None => default_avatar_url,
    }
}

/// The text telling the author that they are not registered.
pub fn author_not_registered_message() -> (m: String)
    ensures
        m@ == "You are **not** registered! Use "@ + REGISTER_MENTION@ + " to register"@,
{
    let mut m = "You are **not** registered! Use ".to_owned();
    m.append(REGISTER_MENTION);
    m.append(" to register");
    m
}

/// The text telling that the member with the given display name is not
/// registered.
pub fn member_not_registered_message(display_name: &str) -> (m: String)
    ensures
        m@ == "**"@ + display_name@ + "** is **not** registered!"@,
{
    let mut m = "**".to_owned();
    m.append(display_name);
    m.append("** is **not** registered!");
    m
}

/// Whether the button pressed on a yes/no prompt is the yes button.
pub fn is_yes_button(custom_id: &str) -> (yes: bool)
    ensures
        yes == (custom_id@ == "y"@),
{
    same_text(custom_id, "y")
}

/// The description of the welcome embed sent to a server that added the bot.
pub fn welcome_message() -> (m: String)
    ensures
        m@ == "Hello! My name is **SpaceCases**\n    \n    I am a CS2 case unboxing, trading and economy bot. With me, you can:\n    • Unbox your dream skins\n    • Play minigames to earn balance\n    • Trade items with your friends\n    • Compete against your friends on a global leaderboard\n    \n    Enjoy! - [Spacerulerwill](https://github.com/Spacerulerwill)"@,
{
    "Hello! My name is **SpaceCases**\n    \n    I am a CS2 case unboxing, trading and economy bot. With me, you can:\n    • Unbox your dream skins\n    • Play minigames to earn balance\n    • Trade items with your friends\n    • Compete against your friends on a global leaderboard\n    \n    Enjoy! - [Spacerulerwill](https://github.com/Spacerulerwill)".to_owned()
}

/// The embed introducing the bot: its welcome text, and the bot's avatar
/// as the thumbnail.
#[derive(Debug)]
pub struct WelcomeEmbed {
    pub description: String,
    pub thumbnail: String,
}

/// The welcome embed, given the bot's own avatar (if it set one) and its
/// default avatar.
pub fn get_welcome_embed(avatar_url: Option<String>, default_avatar_url: String) -> (e: WelcomeEmbed)
    ensures
        e.description@ == "Hello! My name is **SpaceCases**\n    \n    I am a CS2 case unboxing, trading and economy bot. With me, you can:\n    • Unbox your dream skins\n    • Play minigames to earn balance\n    • Trade items with your friends\n    • Compete against your friends on a global leaderboard\n    \n    Enjoy! - [Spacerulerwill](https://github.com/Spacerulerwill)"@,
        e.thumbnail == match avatar_url {
            Some(u) => u,
            None => default_avatar_url,
        },
{
    WelcomeEmbed {
        description: welcome_message(),
        thumbnail: get_user_avatar_url(avatar_url, default_avatar_url),
    }
}

/// The reply sent when a command failed with an error.
pub fn command_error_message(command_name: &str) -> (m: String)
    ensures
        m@ == "An error has occured while executing command `"@ + command_name@
            + "`, it has been reported to the development team"@,
{
    let mut m = "An error has occured while executing command `".to_owned();
    m.append(command_name);
    m.append("`, it has been reported to the development team");
    m
}

} // verus!
