use spacecases::text::{currency_string, normalize_item_name, to_title_case};

#[test]
fn test_currency_string() {
    assert_eq!(currency_string(0), "$0.00");
    assert_eq!(currency_string(1), "$0.01");
    assert_eq!(currency_string(99), "$0.99");
    assert_eq!(currency_string(100), "$1.00");
    assert_eq!(currency_string(123), "$1.23");
    assert_eq!(currency_string(12345), "$123.45");
    assert_eq!(currency_string(1000000), "$10000.00");
    assert_eq!(currency_string(999999999), "$9999999.99");
    assert_eq!(currency_string(u64::MAX), "$184467440737095516.15");
}

#[test]
fn test_normalize_item_name() {
    assert_eq!(normalize_item_name("AK-47 | Ice Coaled"), "ak47icecoaled");
    assert_eq!(normalize_item_name("Desert Eagle | Sunset Storm 弐"), "deserteaglesunsetstorm弐");
    assert_eq!(normalize_item_name("Desert Eagle | Sunset Storm 壱"), "deserteaglesunsetstorm壱");
    assert_eq!(normalize_item_name("AUG | Flame Jörmungandr"), "augflamejörmungandr");
    assert_eq!(normalize_item_name("M4A4 | 龍王 (Dragon King)"), "m4a4龍王dragonking");
    assert_eq!(normalize_item_name("Desert Eagle | Ramese's Reach"), "deserteagleramesesreach");
    assert_eq!(normalize_item_name("P250 | Black & Tan"), "p250black&tan");
    assert_eq!(normalize_item_name("Sawed Off | Kiss♥Love"), "sawedoffkisslove");
    assert_eq!(normalize_item_name("M249 | O.S.I.P.R."), "m249osipr");
    assert_eq!(normalize_item_name("Negev | dev_texture"), "negevdevtexture");
    assert_eq!(normalize_item_name("AWP | Man-o'-war"), "awpmanowar");
    assert_eq!(normalize_item_name("Galil AR | CAUTION!"), "galilarcaution");
}

#[test]
fn test_title_case() {
    assert_eq!(to_title_case("factory new"), "Factory New");
    assert_eq!(to_title_case("mil-spec"), "Mil-Spec");
    assert_eq!(to_title_case("---bruh-moment"), "---Bruh-Moment");
}

#[test]
fn currency_string_pads_single_digit_cents() {
    assert_eq!(currency_string(105), "$1.05");
    assert_eq!(currency_string(10), "$0.10");
}

#[test]
fn title_case_uses_unicode_uppercase() {
    assert_eq!(to_title_case("straße"), "Straße");
    assert_eq!(to_title_case("ßa b"), "SSa B");
    assert_eq!(to_title_case(""), "");
    assert_eq!(to_title_case("a  b"), "A  B");
}

#[test]
fn normalize_drops_whitespace_and_lowercases() {
    assert_eq!(normalize_item_name("  Ö  "), "ö");
    assert_eq!(normalize_item_name(""), "");
    assert_eq!(normalize_item_name("ÀB"), "b");
}

#[test]
fn currency_text_reads_back_to_the_amount() {
    for cents in [0u64, 7, 99, 100, 12345, 999999999, u64::MAX] {
        let s = currency_string(cents);
        let (d, f) = s[1..].split_once('.').unwrap();
        assert_eq!(f.len(), 2);
        assert_eq!(d.parse::<u128>().unwrap() * 100 + f.parse::<u128>().unwrap(), cents as u128);
    }
    assert_ne!(currency_string(10), currency_string(100));
}

#[test]
fn title_case_twice_is_title_case_once() {
    for s in ["factory new", "mil-spec", "---bruh-moment", "Already Titled", "a b-c"] {
        let once = to_title_case(s);
        assert_eq!(to_title_case(&once), once);
        assert_eq!(once.to_ascii_lowercase(), s.to_ascii_lowercase());
    }
}

#[test]
fn normalizing_twice_is_normalizing_once() {
    for s in ["AK-47 | Ice Coaled", "M4A4 | 龍王 (Dragon King)", "AUG | Flame Jörmungandr", "P250 | Black & Tan"] {
        let once = normalize_item_name(s);
        assert_eq!(normalize_item_name(&once), once);
    }
}

#[test]
fn normalizing_ignores_case_and_splits_over_parts() {
    let a = "AK-47 | ";
    let b = "Ice Coaled";
    assert_eq!(normalize_item_name(&format!("{}{}", a, b)), normalize_item_name(a) + &normalize_item_name(b));
    assert_eq!(normalize_item_name(&b.to_ascii_uppercase()), normalize_item_name(b));
    assert_eq!(normalize_item_name(&b.to_ascii_lowercase()), normalize_item_name(b));
}
