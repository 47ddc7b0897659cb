use yog_modlist::entry::{entries_from_installed, source_from_tag, InstalledMod, ModEntry, ModSource};
use yog_modlist::row::{count_label, row_text};
use yog_modlist::YogModList;

fn installed(source: &str, id: &str, authors: &str, description: &str) -> InstalledMod {
    InstalledMod {
        source: source.to_string(),
        id: id.to_string(),
        name: format!("Name of {}", id),
        version: "1.2.3".to_string(),
        authors: authors.to_string(),
        description: description.to_string(),
    }
}

#[test]
fn source_tags() {
    assert_eq!(source_from_tag("yog"), ModSource::Yog);
    assert_eq!(source_from_tag("fabric"), ModSource::Platform);
    assert_eq!(source_from_tag("Yog"), ModSource::Platform);
    assert_eq!(source_from_tag("yog "), ModSource::Platform);
    assert_eq!(source_from_tag(""), ModSource::Platform);
}

#[test]
fn entries_keep_order_and_fields() {
    let mods = vec![
        installed("yog", "modlist", "F000NK", "A list."),
        installed("forge", "jei", "", "Items."),
    ];
    let es: Vec<ModEntry> = entries_from_installed(&mods);
    assert_eq!(es.len(), 2);
    assert_eq!(es[0].id, "modlist");
    assert_eq!(es[0].name, "Name of modlist");
    assert_eq!(es[0].version, "1.2.3");
    assert_eq!(es[0].authors, "F000NK");
    assert_eq!(es[0].description, "A list.");
    assert_eq!(es[0].source, ModSource::Yog);
    assert_eq!(es[1].id, "jei");
    assert_eq!(es[1].source, ModSource::Platform);
}

#[test]
fn closed_row_texts() {
    let e = &entries_from_installed(&vec![installed(
        "yog",
        "modlist",
        "F000NK, Yog Team",
        "An in-game mod browser for Yog Mod Loader.",
    )])[0];
    let r = row_text(e, false, 20);
    assert_eq!(r.marker, ">");
    assert_eq!(r.name, "Name of modlist");
    assert_eq!(r.version, "v1.2.3");
    assert_eq!(r.badge, "[Yog]");
    assert_eq!(r.authors, "by F000NK, Yog Team");
    assert_eq!(r.description, vec!["An in-game mod br...".to_string()]);
    assert!(r.footer.is_none());
}

#[test]
fn open_row_texts() {
    let e = &entries_from_installed(&vec![installed(
        "neoforge",
        "jei",
        "",
        "Just enough items for everyone",
    )])[0];
    let r = row_text(e, true, 20);
    assert_eq!(r.marker, "v");
    assert_eq!(r.badge, "[MC]");
    assert_eq!(r.authors, "by unknown");
    assert_eq!(
        r.description,
        vec!["Just enough items".to_string(), "for everyone".to_string()]
    );
    assert_eq!(r.footer, Some("id: jei  (platform mod)".to_string()));
}

#[test]
fn long_authors_are_cut() {
    let e = &entries_from_installed(&vec![installed(
        "yog",
        "x",
        "Alice, Bob, Carol, Dave, Erin",
        "",
    )])[0];
    let r = row_text(e, true, 20);
    assert_eq!(r.authors, "by Alice, Bob, Ca...");
    assert_eq!(r.description, vec!["".to_string()]);
    assert_eq!(r.footer, Some("id: x  (yog mod)".to_string()));
}

#[test]
fn header_count() {
    assert_eq!(count_label(0), "0 mod(s)");
    assert_eq!(count_label(7), "7 mod(s)");
    assert_eq!(count_label(10), "10 mod(s)");
    assert_eq!(count_label(12345), "12345 mod(s)");
    assert_eq!(count_label(usize::MAX), format!("{} mod(s)", usize::MAX));
}

#[test]
fn registration_names() {
    assert_eq!(YogModList::ui_id(), "yog:modlist");
    assert_eq!(YogModList::menu_label(), "Yog Mods");
}
