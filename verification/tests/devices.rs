//! Selector parsing, scanning, auto-selection and device resolution.
use brightctl::device::{Class, Device};
use brightctl::enumerator::{parse_device, parse_selector, Enumerator, ScanEntry};
use brightctl::error::Error;
use brightctl::text::parse_attr_text;

fn entry(name: &str, max: u32) -> ScanEntry {
    ScanEntry {
        name: name.to_string(),
        brightness: Some(0),
        max_brightness: Some(max),
    }
}

#[test]
fn selector_with_class() {
    let (class, name) = parse_selector("leds/foo").unwrap();
    assert_eq!(class, Class::Leds);
    assert_eq!(name, "foo");
}

#[test]
fn selector_defaults_to_backlight() {
    let (class, name) = parse_selector("foo").unwrap();
    assert_eq!(class, Class::Backlight);
    assert_eq!(name, "foo");
}

#[test]
fn selector_leds_auto_is_invalid() {
    assert_eq!(
        parse_selector("leds/auto"),
        Err(Error::InvalidSelector("leds/auto".to_string()))
    );
}

#[test]
fn selector_unknown_class_is_invalid() {
    assert_eq!(
        parse_selector("oled/foo"),
        Err(Error::InvalidSelector("oled/foo".to_string()))
    );
}

#[test]
fn selector_backlight_auto_is_valid() {
    let (class, name) = parse_selector("backlight/auto").unwrap();
    assert_eq!(class, Class::Backlight);
    assert_eq!(name, "auto");
}

#[test]
fn auto_picks_first_strict_maximum() {
    // Maxima observed in scan order [10, 20, 20]: `auto` resolves to the
    // first device with 20; the second 20 does not displace it.
    let backlights = vec![entry("a", 10), entry("b", 20), entry("c", 20)];
    let mut e = Enumerator::new();
    e.scan(&backlights, &vec![]).unwrap();
    let auto = e.get_named_device("auto").unwrap();
    assert_eq!(auto.name, "auto");
    assert_eq!(auto.real_name.as_deref(), Some("b"));
    assert_eq!(auto.class, Class::Backlight);
}

#[test]
fn auto_absent_without_positive_maximum() {
    let backlights = vec![entry("zeta", 0), entry("alpha", 0)];
    let mut e = Enumerator::new();
    e.scan(&backlights, &vec![]).unwrap();
    assert_eq!(e.get_named_device("auto").unwrap_err(), Error::NoDeviceFound);
    // The default falls back to the lexicographically first backlight.
    let d = e.get_default_device().unwrap();
    assert_eq!(d.name, "alpha");
    assert!(d.real_name.is_none());
}

#[test]
fn default_device_prefers_auto() {
    let backlights = vec![entry("zzz", 5)];
    let mut e = Enumerator::new();
    e.scan(&backlights, &vec![]).unwrap();
    let d = e.get_default_device().unwrap();
    assert_eq!(d.name, "auto");
    assert_eq!(d.real_name.as_deref(), Some("zzz"));
}

#[test]
fn default_device_without_backlights_fails() {
    let mut e = Enumerator::new();
    e.scan(&vec![], &vec![]).unwrap();
    assert_eq!(e.get_default_device().unwrap_err(), Error::NoDeviceFound);
}

#[test]
fn scan_fails_fast_on_unreadable_attribute() {
    let backlights = vec![
        entry("good", 10),
        ScanEntry {
            name: "bad".to_string(),
            brightness: None,
            max_brightness: Some(3),
        },
        entry("later", 20),
    ];
    let mut e = Enumerator::new();
    assert_eq!(
        e.scan(&backlights, &vec![]),
        Err(Error::AttributeUnreadable("bad".to_string()))
    );
    // The maps are left as they were: no partial update.
    assert!(e.list().is_empty());
}

#[test]
fn scan_fails_on_unreadable_led() {
    let leds = vec![ScanEntry {
        name: "lamp".to_string(),
        brightness: Some(1),
        max_brightness: None,
    }];
    let mut e = Enumerator::new();
    assert_eq!(
        e.scan(&vec![entry("bl", 4)], &leds),
        Err(Error::AttributeUnreadable("lamp".to_string()))
    );
}

#[test]
fn scan_ignores_reserved_name() {
    // An on-disk entry named `auto` is reserved for the alias and
    // takes no part in the scan, not even in validation.
    let backlights = vec![
        ScanEntry {
            name: "auto".to_string(),
            brightness: None,
            max_brightness: None,
        },
        entry("panel", 7),
    ];
    let mut e = Enumerator::new();
    e.scan(&backlights, &vec![]).unwrap();
    let auto = e.get_named_device("auto").unwrap();
    assert_eq!(auto.real_name.as_deref(), Some("panel"));
}

#[test]
fn list_is_sorted_backlights_first() {
    let backlights = vec![entry("c", 7), entry("a", 5), entry("b", 9)];
    let leds = vec![entry("kbd", 3), entry("caps", 1)];
    let mut e = Enumerator::new();
    e.scan(&backlights, &leds).unwrap();
    let names: Vec<String> = e.list().iter().map(|d| d.name.clone()).collect();
    assert_eq!(names, vec!["a", "auto", "b", "c", "caps", "kbd"]);
    let auto = e.get_named_device("auto").unwrap();
    assert_eq!(auto.real_name.as_deref(), Some("b"));
}

#[test]
fn named_device_resolves_in_both_classes() {
    let mut e = Enumerator::new();
    e.scan(&vec![entry("panel", 10)], &vec![entry("kbd", 3)]).unwrap();
    let p = e.get_named_device("panel").unwrap();
    assert_eq!(p.class, Class::Backlight);
    assert_eq!(p.name, "panel");
    assert!(p.real_name.is_none());
    let k = e.get_named_device("leds/kbd").unwrap();
    assert_eq!(k.class, Class::Leds);
    assert_eq!(k.name, "kbd");
}

#[test]
fn named_device_absent_is_unreadable() {
    let mut e = Enumerator::new();
    e.scan(&vec![entry("panel", 10)], &vec![]).unwrap();
    assert_eq!(
        e.get_named_device("zzz").unwrap_err(),
        Error::AttributeUnreadable("zzz".to_string())
    );
    // A backlight name is not found among the LEDs.
    assert_eq!(
        e.get_named_device("leds/panel").unwrap_err(),
        Error::AttributeUnreadable("panel".to_string())
    );
}

#[test]
fn named_device_bad_selector() {
    let mut e = Enumerator::new();
    e.scan(&vec![], &vec![]).unwrap();
    assert_eq!(
        e.get_named_device("oled/foo").unwrap_err(),
        Error::InvalidSelector("oled/foo".to_string())
    );
}

#[test]
fn parse_device_auto_falls_back_to_default() {
    let mut e = Enumerator::new();
    e.scan(&vec![entry("beta", 0), entry("alpha", 0)], &vec![]).unwrap();
    // No positive maximum, so no alias: `auto` means the first backlight.
    let d = parse_device(&e, "backlight/auto").unwrap();
    assert_eq!(d.name, "alpha");
}

#[test]
fn parse_device_named_and_invalid() {
    let mut e = Enumerator::new();
    e.scan(&vec![entry("panel", 10)], &vec![]).unwrap();
    let d = parse_device(&e, "panel").unwrap();
    assert_eq!(d.name, "panel");
    assert_eq!(
        parse_device(&e, "leds/auto").unwrap_err(),
        Error::InvalidSelector("leds/auto".to_string())
    );
    assert_eq!(
        parse_device(&e, "missing").unwrap_err(),
        Error::AttributeUnreadable("missing".to_string())
    );
}

#[test]
fn attribute_paths_follow_the_class_tree() {
    let alias = Device {
        class: Class::Backlight,
        name: "auto".to_string(),
        real_name: Some("panel".to_string()),
    };
    assert_eq!(alias.brightness_path(), "/sys/class/backlight/panel/brightness");
    assert_eq!(alias.resolved_name(), "panel");
    let led = Device {
        class: Class::Leds,
        name: "kbd".to_string(),
        real_name: None,
    };
    assert_eq!(led.max_brightness_path(), "/sys/class/leds/kbd/max_brightness");
    assert_eq!(led.resolved_name(), "kbd");
    assert_eq!(Class::Backlight.dir_name(), "backlight");
    assert_eq!(Class::Leds.dir_name(), "leds");
}

#[test]
fn attribute_text_is_trimmed_and_parsed() {
    assert_eq!(parse_attr_text(" 42\n").unwrap(), 42);
    assert_eq!(parse_attr_text("0").unwrap(), 0);
    assert_eq!(
        parse_attr_text("4a\n"),
        Err(Error::InvalidValue("4a\n".to_string()))
    );
    assert!(parse_attr_text("\n").is_err());
}
