use kls::colors::{Style, ColorTable, compute_on, compute_color_for, apply_style, split_chars};
use kls::files::{FilesEntry, FilesList, ChildInfo, MetaInfo};
use kls::formatter::{FormattedEntry, FormattedFile, CountedEntry, Probe, DeepAction, deep_step,
    get_formatted_list, output, output_one_list, output_short_format, format_row};
use kls::params::Opts;
use kls::utils::str_to_chars;

fn meta(perms: u16, size: u64) -> MetaInfo {
    MetaInfo {
        perms,
        size,
        mtime: Some((1_000_000_000, 0)),
        links: 1,
        user: Some(String::from("root")),
        group: Some(String::from("root")),
    }
}

fn file_entry(path: &str, perms: u16) -> FilesEntry {
    FilesEntry::new_file(&String::from(path), meta(perms, 10), 1_700_000_000, 0)
}

fn dir_entry(path: &str) -> FilesEntry {
    FilesEntry::new_dir(&String::from(path), meta(0o040755, 4096), 1_700_000_000, 0)
}

fn sym_entry(path: &str, target: &str) -> FilesEntry {
    FilesEntry::new_sym(&String::from(path), &String::from(target), meta(0o120777, 4),
        1_700_000_000, 0)
}

fn plain() -> Style {
    Style { fg: None, bg: None, bold: false, underline: false, blink: false, reverse: false }
}

#[test]
fn splitting_text() {
    let v = str_to_chars("a:bc::d");
    let parts = split_chars(&v, ':');
    let texts: Vec<String> = parts.iter().map(|p| p.iter().collect()).collect();
    assert_eq!(texts, vec!["a", "bc", "", "d"]);
    let single = split_chars(&str_to_chars(""), ':');
    assert_eq!(single.len(), 1);
    assert!(single[0].is_empty());
}

#[test]
fn codes_change_style() {
    let s = compute_on(plain(), &String::from("32"));
    assert_eq!(s.fg, Some(32));
    let s = compute_on(s, &String::from("44"));
    assert_eq!(s.bg, Some(44));
    assert_eq!(s.fg, Some(32));
    let s = compute_on(s, &String::from("4"));
    assert!(s.underline);
    let s2 = compute_on(s, &String::from("99"));
    assert_eq!(s2, s);
    let s3 = compute_on(s, &String::from("032"));
    assert_eq!(s3, s);
}

#[test]
fn table_from_environment_text() {
    let src = Some(String::from("*.txt=32:*.rs=01;34:di=34:broken=1=2:README.txt=31:*.gz=31"));
    let t = ColorTable::build(&src);
    // `di` is not of the shape `*.ext`, `broken` has two `=`, and
    // `README.txt` does not open with `*.`: all three are skipped.
    assert_eq!(t.rules.len(), 3);
    assert_eq!(t.rules[0].ext, "txt");
    assert_eq!(t.rules[0].codes, vec![String::from("32")]);
    assert_eq!(t.rules[1].ext, "rs");
    assert_eq!(t.rules[1].codes, vec![String::from("01"), String::from("34")]);
    assert_eq!(t.rules[2].ext, "gz");
}

#[test]
fn table_absent_is_empty() {
    let t = ColorTable::build(&None);
    assert_eq!(t.rules.len(), 0);
    assert_eq!(compute_color_for(plain(), &String::from("txt"), &t), plain());
}

#[test]
fn later_rule_wins() {
    let t = ColorTable::build(&Some(String::from("*.txt=32:*.txt=31")));
    let s = compute_color_for(plain(), &String::from("txt"), &t);
    assert_eq!(s.fg, Some(31));
    assert!(s.bold);
}

#[test]
fn extension_styling_forces_bold() {
    let t = ColorTable::build(&Some(String::from("*.txt=32")));
    let s = compute_color_for(plain(), &String::from("txt"), &t);
    assert_eq!(s.fg, Some(32));
    assert!(s.bold);
    assert_eq!(compute_color_for(plain(), &String::from("rs"), &t), plain());
}

#[test]
fn plain_style_renders_text_unchanged() {
    colored::control::set_override(true);
    assert_eq!(apply_style("hello", &plain()), "hello");
    colored::control::unset_override();
}

#[test]
fn styled_text_carries_codes() {
    colored::control::set_override(true);
    let green_bold = Style { fg: Some(32), bold: true, ..plain() };
    let s = apply_style("x", &green_bold);
    assert!(s.contains("32"));
    assert!(s.contains('\u{1b}'));
    assert!(s.contains('x'));
    colored::control::unset_override();
}

#[test]
fn deep_resolution_steps() {
    assert_eq!(deep_step(None, 5), DeepAction::Done(FormattedFile::Sym));
    assert_eq!(deep_step(Some(Probe::File), 5), DeepAction::Done(FormattedFile::File));
    assert_eq!(deep_step(Some(Probe::Dir), 5), DeepAction::Done(FormattedFile::Dir));
    assert_eq!(deep_step(Some(Probe::Symlink), 5), DeepAction::Follow);
    assert_eq!(deep_step(Some(Probe::Symlink), 0), DeepAction::Done(FormattedFile::Sym));
}

#[test]
fn formatted_entry_fields() {
    let mut m = meta(0o100644, 123);
    m.user = None;
    m.links = 2;
    let e = FilesEntry::new_file(&String::from("/d/a.txt"), m, 1_700_000_000, 0);
    let f = FormattedEntry::new(&e, "a.txt", None);
    assert_eq!(f.mode, "-rw-r--r--");
    assert_eq!(f.links, "2");
    assert_eq!(f.user, "-");
    assert_eq!(f.group, "root");
    assert_eq!(f.size, "123");
    assert_eq!(f.name, "a.txt");
    assert!(f.sym.is_none());
}

#[test]
fn pad_aligns_to_column_maxima() {
    let opts = Opts { long_format: true, all_files: false };
    let table = ColorTable::build(&None);
    let a = FormattedEntry::new(&file_entry("/d/a", 0o100644), "a", None);
    let mut big = meta(0o100644, 123456);
    big.links = 120;
    big.user = Some(String::from("someuser"));
    let b = FormattedEntry::new(&FilesEntry::new_dir(&String::from("/d/bb"), big,
        1_700_000_000, 0), "bb", None);
    let rows = FormattedEntry::pad(vec![a, b], &opts, &table);
    assert_eq!(rows[0].links.len(), rows[1].links.len());
    assert_eq!(rows[0].user.len(), rows[1].user.len());
    assert_eq!(rows[0].size.len(), rows[1].size.len());
    assert_eq!(rows[0].links, "  1");
    assert_eq!(rows[1].links, "120");
    assert_eq!(rows[0].user, "root    ");
    assert_eq!(rows[1].user, "someuser");
    assert_eq!(rows[0].size, "    10");
    assert_eq!(rows[1].size, "123456");
}

#[test]
fn counted_entry_tracks_maxima() {
    let mut c = CountedEntry::new();
    assert_eq!(c.size, 0);
    let f = FormattedEntry::new(&file_entry("/d/a", 0o100644), "a", None);
    c.next(&f);
    assert_eq!(c.mode, 10);
    assert_eq!(c.size, 2);
    assert_eq!(c.modified, f.modified.len());
}

#[test]
fn green_extension_in_short_form() {
    colored::control::set_override(true);
    let table = ColorTable::build(&Some(String::from("*.txt=32")));
    let opts = Opts { long_format: false, all_files: false };
    let children = vec![ChildInfo { entry: file_entry("/d/a.txt", 0o100644), blocks: 0 }];
    let l = FilesList::new(dir_entry("/d"), None, 0, 0, children, 1024, &opts);
    let line = output_short_format(&l, &opts, &vec![None], &table);
    assert!(line.contains("a.txt"));
    assert!(line.contains("32"));
    assert!(line.contains('\u{1b}'));
    colored::control::unset_override();
}

#[test]
fn short_form_hides_dotfiles() {
    colored::control::set_override(false);
    let table = ColorTable::build(&None);
    let opts = Opts { long_format: false, all_files: false };
    let children = vec![
        ChildInfo { entry: file_entry("/d/.env", 0o100644), blocks: 0 },
        ChildInfo { entry: file_entry("/d/run.sh", 0o100755), blocks: 0 },
        ChildInfo { entry: dir_entry("/d/bin"), blocks: 0 },
    ];
    let l = FilesList::new(dir_entry("/d"), None, 0, 0, children, 1024, &opts);
    let line = output_short_format(&l, &opts, &vec![None, None], &table);
    assert_eq!(line, "bin  run.sh");
    colored::control::unset_override();
}

#[test]
fn short_form_with_hidden_shows_dot_entries() {
    colored::control::set_override(false);
    let table = ColorTable::build(&None);
    let opts = Opts { long_format: false, all_files: true };
    let children = vec![
        ChildInfo { entry: file_entry("/d/.env", 0o100644), blocks: 0 },
        ChildInfo { entry: file_entry("/d/run.sh", 0o100755), blocks: 0 },
        ChildInfo { entry: dir_entry("/d/bin"), blocks: 0 },
    ];
    let l = FilesList::new(dir_entry("/d"), Some(dir_entry("/")), 0, 0, children, 1024, &opts);
    let line = output_short_format(&l, &opts, &vec![None, None, None], &table);
    assert_eq!(line, ".  ..  bin  .env  run.sh");
    colored::control::unset_override();
}

#[test]
fn dangling_symlink_target_shown_raw() {
    colored::control::set_override(true);
    let table = ColorTable::build(&None);
    let opts = Opts { long_format: true, all_files: false };
    let children = vec![ChildInfo { entry: sym_entry("/d/link", "../target"), blocks: 0 }];
    let l = FilesList::new(dir_entry("/d"), None, 0, 0, children, 1024, &opts);
    let lines = output_one_list(&l, &opts, &vec![None], &table);
    assert_eq!(lines.len(), 2);
    assert!(lines[0].starts_with("total "));
    // The link's own name is styled; the unresolvable target is not.
    assert!(lines[1].ends_with(" -> ../target"));
    assert!(lines[1].contains('\u{1b}'));
    colored::control::unset_override();
}

#[test]
fn resolved_symlink_target_styles() {
    colored::control::set_override(true);
    let table = ColorTable::build(&None);
    let opts = Opts { long_format: true, all_files: false };
    let e = sym_entry("/d/link", "bin");
    let f = FormattedEntry::new(&e, "link", Some((FormattedFile::Dir, false)));
    let s = f.get_colored_name(&opts, &table);
    // Directory targets are painted blue: code 34 appears after the arrow.
    let arrow = s.find(" -> ").unwrap();
    assert!(s[arrow..].contains("34"));
    colored::control::unset_override();
}

#[test]
fn long_form_lines() {
    colored::control::set_override(false);
    let table = ColorTable::build(&None);
    let opts = Opts { long_format: true, all_files: false };
    let children = vec![ChildInfo { entry: file_entry("/d/a", 0o100644), blocks: 6 }];
    let l = FilesList::new(dir_entry("/d"), None, 0, 0, children, 1024, &opts);
    let lines = output_one_list(&l, &opts, &vec![None], &table);
    assert_eq!(lines.len(), 2);
    assert_eq!(lines[0], "total 3");
    assert!(lines[1].starts_with("-rw-r--r-- 1 root root 10 "));
    assert!(lines[1].ends_with(" a"));
    colored::control::unset_override();
}

#[test]
fn row_text_is_fields_with_single_spaces() {
    let f = FormattedEntry {
        mode: String::from("m"),
        links: String::from("l"),
        user: String::from("u"),
        group: String::from("g"),
        size: String::from("s"),
        modified: String::from("t"),
        name: String::from("n"),
        sym: None,
    };
    assert_eq!(format_row(&f), "m l u g s t n");
}

#[test]
fn multi_root_output_separators_and_headings() {
    colored::control::set_override(false);
    let table = ColorTable::build(&None);
    let opts = Opts { long_format: false, all_files: false };
    let mk = |p: &str, file: &str| {
        let children = vec![ChildInfo { entry: file_entry(file, 0o100644), blocks: 0 }];
        FilesList::new(dir_entry(p), None, 0, 0, children, 1024, &opts)
    };
    let data = vec![mk("/d1", "/d1/a"), mk("/d2", "/d2/b")];
    let lines = output(&data, &opts, &vec![vec![None], vec![None]], &table);
    assert_eq!(lines, vec!["d1:", "a", "", "d2:", "b"]);
    let one = vec![mk("/d1", "/d1/a")];
    let lines = output(&one, &opts, &vec![vec![None]], &table);
    assert_eq!(lines, vec!["a"]);
    colored::control::unset_override();
}

#[test]
fn name_style_policy() {
    let table = ColorTable::build(&Some(String::from("*.txt=32")));
    let sym = FormattedEntry::new(&sym_entry("/d/l", "t"), "l", None);
    let s = sym.name_style(&table);
    assert_eq!(s.fg, Some(96));
    assert!(s.bold);
    let dir = FormattedEntry::new(&dir_entry("/d/bin"), "bin", None);
    let s = dir.name_style(&table);
    assert_eq!(s.fg, Some(34));
    assert!(s.bold);
    let exe = FormattedEntry::new(&file_entry("/d/run.sh", 0o100755), "run.sh", None);
    let s = exe.name_style(&table);
    assert_eq!(s.fg, Some(32));
    assert!(s.bold);
    let plain_file = FormattedEntry::new(&file_entry("/d/a.log", 0o100644), "a.log", None);
    assert_eq!(plain_file.name_style(&table), plain());
    let txt = FormattedEntry::new(&file_entry("/d/a.txt", 0o100644), "a.txt", None);
    let s = txt.name_style(&table);
    assert_eq!(s.fg, Some(32));
    assert!(s.bold);
}

#[test]
fn extension_rule_paints_over_type_style() {
    // A directory named like the rule keeps bold and takes the rule's color.
    let table = ColorTable::build(&Some(String::from("*.txt=31")));
    let dir = FormattedEntry::new(&dir_entry("/d/notes.txt"), "notes.txt", None);
    let s = dir.name_style(&table);
    assert_eq!(s.fg, Some(31));
    assert!(s.bold);
}

#[test]
fn hidden_formatted_list_opens_with_dot_rows() {
    let opts = Opts { long_format: false, all_files: true };
    let children = vec![ChildInfo { entry: file_entry("/d/a", 0o100644), blocks: 0 }];
    let l = FilesList::new(dir_entry("/d"), Some(dir_entry("/")), 0, 0, children, 1024, &opts);
    let rows = get_formatted_list(&l, &opts, &vec![None]);
    assert_eq!(rows.len(), 3);
    assert_eq!(rows[0].name, ".");
    assert_eq!(rows[1].name, "..");
    assert_eq!(rows[2].name, "a");
}
