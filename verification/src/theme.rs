//! The colours of the window, as the style sheet of a theme defines them.

use crate::text::{
    chars_of, find_in_range, lines, position_of, range_starts_with, same_text, split_lines,
    string_of, strip_end, strip_end_range, texts, trim_range, trimmed,
};
use vstd::prelude::*;

verus! {

/// The six colours that the window is drawn with.
#[derive(Debug, PartialEq, Eq)]
pub struct ThemeColors {
    pub bg: String,
    pub fg: String,
    pub base: String,
    pub selected_bg: String,
    pub selected_fg: String,
    pub borders: String,
}

/// What the colours are in contracts.
pub struct ColorsView {
    pub bg: Seq<char>,
    pub fg: Seq<char>,
    pub base: Seq<char>,
    pub selected_bg: Seq<char>,
    pub selected_fg: Seq<char>,
    pub borders: Seq<char>,
}

impl View for ThemeColors {
    type V = ColorsView;

    open spec fn view(&self) -> ColorsView {
        ColorsView {
            bg: self.bg@,
            fg: self.fg@,
            base: self.base@,
            selected_bg: self.selected_bg@,
            selected_fg: self.selected_fg@,
            borders: self.borders@,
        }
    }
}

/// The colours of a window for which no theme says otherwise.
pub open spec fn default_colors() -> ColorsView {
    ColorsView {
        bg: "#23252e"@,
        fg: "#eeeeec"@,
        base: "#272a34"@,
        selected_bg: "#962ac3"@,
        selected_fg: "#ffffff"@,
        borders: "#13151a"@,
    }
}

/// Whether `value` can be the value of a colour: it begins with `#` or
/// with `rgb`.
pub open spec fn is_color_value(value: Seq<char>) -> bool {
    "#"@.is_prefix_of(value) || "rgb"@.is_prefix_of(value)
}

/// The name and the value of the colour that `line` defines, if it defines
/// one. Such a line, trimmed, begins with `@define-color` and has two
/// single spaces: the name stands between them, the value behind the
/// second, where semicolons at its end and white space around it do not
/// count.
pub open spec fn color_definition(line: Seq<char>) -> Option<(Seq<char>, Seq<char>)> {
    let l = trimmed(line);
    let first = position_of(l, ' ') as int;
    if !"@define-color"@.is_prefix_of(l) || first >= l.len() {
        None
    } else {
        let rest = l.skip(first + 1);
        let second = position_of(rest, ' ') as int;
        if second >= rest.len() {
            None
        } else {
            let value = trimmed(strip_end(rest.skip(second + 1), ';'));
            if is_color_value(value) {
                Some((rest.take(second), value))
            } else {
                None
            }
        }
    }
}

/// `colors` with the colour that the theme calls `name` set to `value`;
/// `colors` itself where the window has no use for that name.
pub open spec fn with_color(colors: ColorsView, name: Seq<char>, value: Seq<char>) -> ColorsView {
    if name == "theme_bg_color"@ {
        ColorsView { bg: value, ..colors }
    } else if name == "theme_fg_color"@ {
        ColorsView { fg: value, ..colors }
    } else if name == "theme_base_color"@ {
        ColorsView { base: value, ..colors }
    } else if name == "theme_selected_bg_color"@ {
        ColorsView { selected_bg: value, ..colors }
    } else if name == "theme_selected_fg_color"@ {
        ColorsView { selected_fg: value, ..colors }
    } else if name == "borders"@ {
        ColorsView { borders: value, ..colors }
    } else {
        colors
    }
}

/// `colors` after one line of a style sheet.
pub open spec fn with_line(colors: ColorsView, line: Seq<char>) -> ColorsView {
    match color_definition(line) {
        Some((name, value)) => with_color(colors, name, value),
        None => colors,
    }
}

/// `colors` after the lines of a style sheet, one after the other: of
/// several definitions of one colour the last counts.
pub open spec fn themed(colors: ColorsView, sheet: Seq<Seq<char>>) -> ColorsView
    decreases sheet.len(),
{
    if sheet.len() == 0 {
        colors
    } else {
        with_line(themed(colors, sheet.drop_last()), sheet.last())
    }
}

/// The style sheets in which the colours of the theme `theme` are looked
/// for, the first that can be read being the one that counts: the user's
/// own under `home`, light and dark, then the system's. No theme, no file.
pub open spec fn theme_files_of(home: Seq<char>, theme: Seq<char>) -> Seq<Seq<char>> {
    if theme.len() == 0 {
        Seq::empty()
    } else {
        seq![
            home + "/.themes/"@ + theme + "/gtk-3.0/gtk.css"@,
            home + "/.themes/"@ + theme + "/gtk-3.0/gtk-dark.css"@,
            "/usr/share/themes/"@ + theme + "/gtk-3.0/gtk.css"@,
            "/usr/share/themes/"@ + theme + "/gtk-3.0/gtk-dark.css"@,
        ]
    }
}

/// The view of an optional definition.
pub open spec fn definition_view(d: Option<(String, String)>) -> Option<(Seq<char>, Seq<char>)> {
    match d {
        Some((name, value)) => Some((name@, value@)),
        None => None,
    }
}

/// The name and the value of the colour that `line` defines, if it defines
/// one.
pub fn parse_color_definition(line: &str) -> (r: Option<(String, String)>)
    ensures
        definition_view(r) == color_definition(line@),
{
    let v = chars_of(line);
    let (start, end) = trim_range(&v, 0, v.len());
    assert(v@.subrange(0, v.len() as int) =~= v@);
    let ghost l = v@.subrange(start as int, end as int);
    let first = find_in_range(&v, start, end, ' ');
    if !range_starts_with(&v, start, end, "@define-color") || first >= end {
        return None;
    }
    let ghost rest = l.skip(first - start + 1);
    assert(rest =~= v@.subrange(first + 1, end as int));
    let second = find_in_range(&v, first + 1, end, ' ');
    if second >= end {
        return None;
    }
    assert(rest.skip(second - first) =~= v@.subrange(second + 1, end as int));
    assert(rest.take(second - first - 1) =~= v@.subrange(first + 1, second as int));
    let stripped_end = strip_end_range(&v, second + 1, end, ';');
    let (from, to) = trim_range(&v, second + 1, stripped_end);
    let is_value = range_starts_with(&v, from, to, "#") || range_starts_with(&v, from, to, "rgb");
    if !is_value {
        return None;
    }
    Some((string_of(&v, first + 1, second), string_of(&v, from, to)))
}

/// The style sheets in which the colours of the theme `theme` are looked
/// for, in the order of the search.
pub fn theme_files(home: &str, theme: &str) -> (files: Vec<String>)
    ensures
        texts(files@) == theme_files_of(home@, theme@),
{
    let mut files: Vec<String> = Vec::new();
    if theme.is_empty() {
        assert(texts(files@) =~= theme_files_of(home@, theme@));
        return files;
    }
    let mut own = home.to_owned();
    own.append("/.themes/");
    own.append(theme);
    let mut own_dark = own.clone();
    own.append("/gtk-3.0/gtk.css");
    own_dark.append("/gtk-3.0/gtk-dark.css");
    let mut shared = "/usr/share/themes/".to_owned();
    shared.append(theme);
    let mut shared_dark = shared.clone();
    shared.append("/gtk-3.0/gtk.css");
    shared_dark.append("/gtk-3.0/gtk-dark.css");
    files.push(own);
    files.push(own_dark);
    files.push(shared);
    files.push(shared_dark);
    assert(texts(files@) =~= theme_files_of(home@, theme@));
    files
}

impl ThemeColors {
    /// The colours of a window for which no theme says otherwise.
    pub fn defaults() -> (c: Self)
        ensures
            c@ == default_colors(),
    {
        ThemeColors {
            bg: "#23252e".to_owned(),
            fg: "#eeeeec".to_owned(),
            base: "#272a34".to_owned(),
            selected_bg: "#962ac3".to_owned(),
            selected_fg: "#ffffff".to_owned(),
            borders: "#13151a".to_owned(),
        }
    }

    /// Sets the colour that the theme calls `name` to `value`; a name that
    /// the window has no use for changes nothing.
    pub fn set(&mut self, name: &str, value: String)
        ensures
            final(self)@ == with_color(old(self)@, name@, value@),
    {
        if same_text(name, "theme_bg_color") {
            self.bg = value;
        } else if same_text(name, "theme_fg_color") {
            self.fg = value;
        } else if same_text(name, "theme_base_color") {
            self.base = value;
        } else if same_text(name, "theme_selected_bg_color") {
            self.selected_bg = value;
        } else if same_text(name, "theme_selected_fg_color") {
            self.selected_fg = value;
        } else if same_text(name, "borders") {
            self.borders = value;
        }
    }

    /// Takes over the colours that the style sheet `css` defines.
    pub fn apply_css(&mut self, css: &str)
        ensures
            final(self)@ == themed(old(self)@, lines(css@)),
    {
        let chars = chars_of(css);
        let sheet = split_lines(&chars);
        let ghost all = texts(sheet@);
        let ghost start = self@;
        let mut i: usize = 0;
        assert(all.take(0) =~= Seq::<Seq<char>>::empty());
        while i < sheet.len()
            invariant
                i <= sheet.len(),
                all == texts(sheet@),
                self@ == themed(start, all.take(i as int)),
            decreases sheet.len() - i,
        {
            proof {
                assert(all.take(i + 1).drop_last() =~= all.take(i as int));
                assert(all.take(i + 1).last() == sheet@[i as int]@);
            }
            match parse_color_definition(sheet[i].as_str()) {
                Some((name, value)) => {
                    self.set(name.as_str(), value);
                },
                None => {},
            }
            i = i + 1;
        }
        assert(all.take(sheet.len() as int) =~= all);
    }
}

} // verus!
