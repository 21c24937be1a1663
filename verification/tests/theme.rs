use mylauncher::paths::{
    history_directory, history_directory_in, history_file, history_file_in, join_path,
    search_directories,
};
use mylauncher::theme::{parse_color_definition, theme_files, ThemeColors};

fn reference(line: &str) -> Option<(String, String)> {
    let line = line.trim();
    if !line.starts_with("@define-color") {
        return None;
    }
    let parts: Vec<&str> = line.splitn(3, ' ').collect();
    if parts.len() < 3 {
        return None;
    }
    let value = parts[2].trim_end_matches(';').trim();
    if !value.starts_with('#') && !value.starts_with("rgb") {
        return None;
    }
    Some((parts[1].to_string(), value.to_string()))
}

#[test]
fn defaults_are_the_dark_colours() {
    let c = ThemeColors::defaults();
    assert_eq!(c.bg, "#23252e");
    assert_eq!(c.fg, "#eeeeec");
    assert_eq!(c.base, "#272a34");
    assert_eq!(c.selected_bg, "#962ac3");
    assert_eq!(c.selected_fg, "#ffffff");
    assert_eq!(c.borders, "#13151a");
}

#[test]
fn definition_gives_name_and_value() {
    assert_eq!(
        parse_color_definition("@define-color theme_bg_color #f6f5f4;"),
        Some(("theme_bg_color".to_string(), "#f6f5f4".to_string()))
    );
    assert_eq!(
        parse_color_definition("  @define-color borders rgba(0, 0, 0, 0.3) ;; \r"),
        Some(("borders".to_string(), "rgba(0, 0, 0, 0.3)".to_string()))
    );
}

#[test]
fn definition_agrees_with_the_reference() {
    let samples = [
        "",
        "@define-color",
        "@define-color x",
        "@define-color x ",
        "@define-color x #fff",
        "@define-color x  #fff",
        "@define-color  x #fff",
        "@define-colorx y #fff",
        "@define-color x y z",
        "@define-color x rgb(1,2,3);",
        "@define-color x @other;",
        "@define-color x mix(#fff, #000, 0.5);",
        "\t@define-color theme_fg_color #000000;;;  ",
        "@define-color\tx #fff",
        "window { color: #fff; }",
        "@define-color x ;#fff;",
        "@define-color x #;",
        "@define-color x ;",
        "@define-color x rg",
        " @define-color a b c d e ",
    ];
    for s in samples {
        assert_eq!(parse_color_definition(s), reference(s), "line {:?}", s);
    }
}

#[test]
fn set_changes_the_named_colour_only() {
    let mut c = ThemeColors::defaults();
    c.set("theme_selected_bg_color", "#3584e4".to_string());
    c.set("unknown_color", "#000".to_string());
    c.set("bg", "#111".to_string());
    let mut expected = ThemeColors::defaults();
    expected.selected_bg = "#3584e4".to_string();
    assert_eq!(c, expected);
    c.set("theme_bg_color", "#1".to_string());
    c.set("theme_fg_color", "#2".to_string());
    c.set("theme_base_color", "#3".to_string());
    c.set("theme_selected_fg_color", "#5".to_string());
    c.set("borders", "#6".to_string());
    assert_eq!(
        (c.bg.as_str(), c.fg.as_str(), c.base.as_str(), c.selected_bg.as_str(), c.selected_fg.as_str(), c.borders.as_str()),
        ("#1", "#2", "#3", "#3584e4", "#5", "#6")
    );
}

#[test]
fn style_sheet_sets_the_colours_it_defines() {
    let css = "/* theme */\n@define-color theme_bg_color #fafafa;\r\n@define-color theme_fg_color rgb(10, 10, 10);\n\
               @define-color theme_text_color #000;\n@define-color theme_base_color @theme_bg_color;\n\
               @define-color borders #cdc7c2;\n@define-color theme_bg_color #f6f5f4;\nwindow { color: red; }";
    let mut c = ThemeColors::defaults();
    c.apply_css(css);
    assert_eq!(c.bg, "#f6f5f4");
    assert_eq!(c.fg, "rgb(10, 10, 10)");
    assert_eq!(c.base, "#272a34");
    assert_eq!(c.borders, "#cdc7c2");
    assert_eq!(c.selected_bg, "#962ac3");
    assert_eq!(c.selected_fg, "#ffffff");
}

#[test]
fn empty_style_sheet_changes_nothing() {
    let mut c = ThemeColors::defaults();
    c.apply_css("");
    assert_eq!(c, ThemeColors::defaults());
}

#[test]
fn theme_files_are_the_users_then_the_systems() {
    assert_eq!(
        theme_files("/home/u", "Adwaita"),
        vec![
            "/home/u/.themes/Adwaita/gtk-3.0/gtk.css",
            "/home/u/.themes/Adwaita/gtk-3.0/gtk-dark.css",
            "/usr/share/themes/Adwaita/gtk-3.0/gtk.css",
            "/usr/share/themes/Adwaita/gtk-3.0/gtk-dark.css",
        ]
    );
    assert_eq!(theme_files("/home/u", ""), Vec::<String>::new());
    assert_eq!(theme_files("", "T")[0], "/.themes/T/gtk-3.0/gtk.css");
}

#[test]
fn join_path_puts_one_separator() {
    assert_eq!(join_path("/home/u", "x/y"), "/home/u/x/y");
    assert_eq!(join_path("/home/u/", "x"), "/home/u/x");
    assert_eq!(join_path("", "x"), "x");
    assert_eq!(join_path("/", "x"), "/x");
}

#[test]
fn search_directories_are_four() {
    assert_eq!(
        search_directories("/home/u"),
        vec![
            "/usr/share/applications",
            "/usr/local/share/applications",
            "/var/lib/flatpak/exports/share/applications",
            "/home/u/.local/share/applications",
        ]
    );
}

#[test]
fn history_file_lies_under_the_configuration_directory() {
    assert_eq!(history_directory_in(Some("/home/u/.config".to_string()), "/home/u"), "/home/u/.config/mylauncher");
    assert_eq!(history_file_in(Some("/xdg/".to_string()), "/home/u"), "/xdg/mylauncher/history");
    assert_eq!(history_file_in(None, "/home/u"), "/home/u/.config/mylauncher/history");
    assert_eq!(history_file_in(None, ""), "/.config/mylauncher/history");
}

#[test]
fn history_file_of_this_system_ends_as_it_should() {
    let file = history_file("/home/nobody");
    let dir = history_directory("/home/nobody");
    assert!(file.ends_with("/mylauncher/history"), "{}", file);
    assert!(dir.ends_with("/mylauncher"), "{}", dir);
    assert_eq!(file, format!("{}/history", dir));
}
