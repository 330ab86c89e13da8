use vstd::prelude::*;
use crate::colors::{
    Style, ColorTable, spec_plain, spec_compute_color_for, compute_color_for, apply_style,
};
use crate::files::{
    FilesEntry, FilesList, FilesType, spec_mode_str, spec_name_of, spec_type_path,
};
use crate::params::Opts;
use crate::utils::{
    StrUtil, str_to_chars, rfind_char, u64_to_string, i64_to_string, spec_nat_str, spec_int_str,
    spec_substr, spec_rfind, spec_pad_start, spec_pad_end, spec_embeds, lemma_embeds_extend,
};

verus! {

// ---------------------------------------------------------------------------
// Deep symlink-chain resolution
// ---------------------------------------------------------------------------

/// The kind a rendered entry or a resolved target falls under.
#[derive(Clone, Copy, PartialEq, Eq, Structural, Debug)]
pub enum FormattedFile {
    File,
    Dir,
    Sym,
}

/// What the caller found at the current position of a symlink chain: the
/// object is itself a symlink whose target could be read, or a regular
/// file, or a directory; `None` stands for a link whose target could not
/// be read.
#[derive(Clone, Copy, PartialEq, Eq, Structural, Debug)]
pub enum Probe {
    Symlink,
    File,
    Dir,
}

/// The next move in resolving a symlink chain.
#[derive(Clone, Copy, PartialEq, Eq, Structural, Debug)]
pub enum DeepAction {
    Follow,
    Done(FormattedFile),
}

/// One step of deep target resolution: an unreadable link counts as a
/// symlink, a file or directory ends the chain, and a further link is
/// followed only while hops remain, so that a cyclic chain ends as a
/// symlink rather than running on.
pub fn deep_step(probe: Option<Probe>, hops_left: u32) -> (r: DeepAction)
    ensures
        r == match probe {
            None => DeepAction::Done(FormattedFile::Sym),
            Some(Probe::File) => DeepAction::Done(FormattedFile::File),
            Some(Probe::Dir) => DeepAction::Done(FormattedFile::Dir),
            Some(Probe::Symlink) => if hops_left == 0 {
                DeepAction::Done(FormattedFile::Sym)
            } else {
                DeepAction::Follow
            },
        },
{
    match probe {
        None => DeepAction::Done(FormattedFile::Sym),
        Some(Probe::File) => DeepAction::Done(FormattedFile::File),
        Some(Probe::Dir) => DeepAction::Done(FormattedFile::Dir),
        Some(Probe::Symlink) => {
            if hops_left == 0 {
                DeepAction::Done(FormattedFile::Sym)
            } else {
                DeepAction::Follow
            }
        },
    }
}

// ---------------------------------------------------------------------------
// FormattedEntry
// ---------------------------------------------------------------------------

/// One row of a long listing, each field already text. For a symlink,
/// `sym` holds the raw recorded target and, when the target chain could be
/// resolved, its deep kind and whether it is executable.
pub struct FormattedEntry {
    pub mode: String,
    pub links: String,
    pub user: String,
    pub group: String,
    pub size: String,
    pub modified: String,
    pub name: String,
    pub sym: Option<(String, Option<(FormattedFile, bool)>)>,
}

/// The base style of a name shown with the given mode column: a symlink
/// bright cyan and bold, a directory blue and bold, an executable green and
/// bold, anything else plain.
pub open spec fn spec_base_style_of(is_sym: bool, mode: Seq<char>) -> Style {
    if is_sym {
        (Style { fg: Some(96u8), bg: None, bold: true, underline: false, blink: false,
            reverse: false })
    } else if mode.len() > 0 && mode[0] == 'd' {
        (Style { fg: Some(34u8), bg: None, bold: true, underline: false, blink: false,
            reverse: false })
    } else if mode.contains('x') {
        (Style { fg: Some(32u8), bg: None, bold: true, underline: false, blink: false,
            reverse: false })
    } else {
        spec_plain()
    }
}

/// The final style of the row an entry yields under the given display name:
/// the extension table's codes on top of the entry's base style.
pub open spec fn spec_row_style(e: FilesEntry, name: Seq<char>,
    t: Seq<(Seq<char>, Seq<Seq<char>>)>) -> Style {
    spec_compute_color_for(spec_base_style_of(e.file_type is Sym, spec_mode_str(&e.file_type,
        e.perms)), FormattedEntry::spec_ext_key(name), t)
}

/// A row built from an entry is styled as the entry itself is.
pub proof fn lemma_row_style(f: FormattedEntry, e: FilesEntry, name: Seq<char>,
    target: Option<(FormattedFile, bool)>, t: Seq<(Seq<char>, Seq<Seq<char>>)>)
    requires
        spec_formatted(f, e, name, target),
    ensures
        f.spec_name_style(t) == spec_row_style(e, name, t),
{
}

/// How a row's fields stand to the entry it was built from.
pub open spec fn spec_formatted(f: FormattedEntry, e: FilesEntry, name: Seq<char>,
    target: Option<(FormattedFile, bool)>) -> bool {
    &&& f.mode@ == spec_mode_str(&e.file_type, e.perms)
    &&& f.links@ == spec_nat_str(e.links as int)
    &&& f.user@ == match e.user {
        Some(u) => u@,
        None => "-"@,
    }
    &&& f.group@ == match e.group {
        Some(g) => g@,
        None => "-"@,
    }
    &&& f.size@ == spec_nat_str(e.size as int)
    &&& f.modified@ == e.modified@
    &&& f.name@ == name
    &&& match e.file_type {
        FilesType::Sym(_, t) => f.sym matches Some(p) && p.0@ == t@ && p.1 == target,
        _ => f.sym is None,
    }
}

impl FormattedEntry {
    /// Builds one row from an entry under the display name the caller
    /// chose, substituting `-` where an identity lookup had failed. For a
    /// symlink, `target` carries the caller's deep resolution of the
    /// recorded target, or nothing when the target is dangling.
    pub fn new(entry: &FilesEntry, name: &str, target: Option<(FormattedFile, bool)>)
        -> (r: Self)
        ensures
            spec_formatted(r, *entry, name@, target),
    {
        FormattedEntry {
            mode: entry.get_mode_str(),
            links: u64_to_string(entry.get_link_count()),
            user: match entry.get_user_str() {
                Err(_) => String::from_str("-"),
                Ok(p) => p,
            },
            group: match entry.get_group_str() {
                Err(_) => String::from_str("-"),
                Ok(p) => p,
            },
            size: u64_to_string(entry.size),
            modified: entry.modified.clone(),
            name: name.to_owned(),
            sym: match &entry.file_type {
                FilesType::Sym(_, t) => Some((t.clone(), target)),
                _ => None,
            },
        }
    }

    /// The style the row's name is painted with before the extension table
    /// is consulted: a symlink bright cyan and bold, a directory blue and
    /// bold, an executable green and bold, anything else plain.
    pub open spec fn spec_base_style(self) -> Style {
        spec_base_style_of(self.sym is Some, self.mode@)
    }

    /// The key the name is looked up under: what follows the last dot, the
    /// whole name when it has no dot.
    pub open spec fn spec_ext_key(name: Seq<char>) -> Seq<char> {
        match spec_rfind(name, '.') {
            Some(i) => spec_substr(name, i + 1, usize::MAX as int),
            None => spec_substr(name, 0, usize::MAX as int),
        }
    }

    /// The style the row's name ends with: the extension table's codes
    /// applied on top of the base style.
    pub open spec fn spec_name_style(self, t: Seq<(Seq<char>, Seq<Seq<char>>)>) -> Style {
        spec_compute_color_for(self.spec_base_style(), Self::spec_ext_key(self.name@), t)
    }

    /// The style of the printed target of a symlink: green and bold for an
    /// executable file, blue and bold for a directory, bright cyan and
    /// bold for a further symlink, plain for a non-executable file and for
    /// a target that could not be read.
    pub open spec fn spec_target_style(resolved: Option<(FormattedFile, bool)>) -> Style {
        match resolved {
            None => spec_plain(),
            Some((FormattedFile::File, exec)) => if exec {
                (Style { fg: Some(32u8), bg: None, bold: true, underline: false, blink: false,
                    reverse: false })
            } else {
                spec_plain()
            },
            Some((FormattedFile::Dir, _)) => (Style { fg: Some(34u8), bg: None, bold: true,
                underline: false, blink: false, reverse: false }),
            Some((FormattedFile::Sym, _)) => (Style { fg: Some(96u8), bg: None, bold: true,
                underline: false, blink: false, reverse: false }),
        }
    }

    /// Computes the name's final style against the extension table.
    pub fn name_style(&self, table: &ColorTable) -> (r: Style)
        ensures
            r == self.spec_name_style(table@),
    {
        let base = if self.sym.is_some() {
            Style { fg: Some(96u8), bg: None, bold: true, underline: false, blink: false,
                reverse: false }
        } else {
            let mode_chars = str_to_chars(self.mode.as_str());
            if mode_chars.len() > 0 && mode_chars[0] == 'd' {
                Style { fg: Some(34u8), bg: None, bold: true, underline: false, blink: false,
                    reverse: false }
            } else if crate::utils::contains_char(&mode_chars, 'x') {
                Style { fg: Some(32u8), bg: None, bold: true, underline: false, blink: false,
                    reverse: false }
            } else {
                Style::plain()
            }
        };
        let name_chars = str_to_chars(self.name.as_str());
        let name_len = name_chars.len();
        let key = match rfind_char(&name_chars, '.') {
            Some(i) => {
                proof {
                    assert(i < name_len);
                }
                self.name.substr_after(i + 1)
            },
            None => self.name.substr_after(0),
        };
        compute_color_for(base, &key, table)
    }

    /// Computes the style of the printed symlink target.
    pub fn target_style(resolved: Option<(FormattedFile, bool)>) -> (r: Style)
        ensures
            r == Self::spec_target_style(resolved),
    {
        match resolved {
            None => Style::plain(),
            Some((FormattedFile::File, exec)) => {
                if exec {
                    Style { fg: Some(32u8), bg: None, bold: true, underline: false,
                        blink: false, reverse: false }
                } else {
                    Style::plain()
                }
            },
            Some((FormattedFile::Dir, _)) => Style { fg: Some(34u8), bg: None, bold: true,
                underline: false, blink: false, reverse: false },
            Some((FormattedFile::Sym, _)) => Style { fg: Some(96u8), bg: None, bold: true,
                underline: false, blink: false, reverse: false },
        }
    }

    /// The row's name as printed: painted with its style, and in long form
    /// a symlink followed by ` -> ` and its styled target. The raw name
    /// always stands whole inside the result; text whose style is plain is
    /// printed exactly as it stands, so a dangling target shows the raw
    /// recorded path unchanged after the arrow.
    pub fn get_colored_name(&self, opts: &Opts, table: &ColorTable) -> (r: String)
        ensures
            spec_embeds(r@, self.name@),
            (self.sym is None || !opts.long_format) && self.spec_name_style(table@)
                == spec_plain() ==> r@ == self.name@,
            (self.sym is Some && opts.long_format && Self::spec_target_style(
                (self.sym->0).1) == spec_plain()) ==> exists|pre: Seq<char>| r@
                == #[trigger] (pre + " -> "@ + (self.sym->0).0@) && spec_embeds(pre,
                self.name@),
            (self.sym is Some && opts.long_format) ==> exists|pre: Seq<char>, mid: Seq<char>,
                suf: Seq<char>| r@ == #[trigger] (pre + " -> "@ + mid + (self.sym->0).0@
                + suf) && spec_embeds(pre, self.name@),
    {
        let style = self.name_style(table);
        let out = apply_style(self.name.as_str(), &style);
        if opts.long_format {
            if let Some((target, resolved)) = &self.sym {
                let tstyle = Self::target_style(*resolved);
                let ttext = apply_style(target.as_str(), &tstyle);
                let mut whole = out;
                whole.append(" -> ");
                whole.append(ttext.as_str());
                proof {
                    let t = (self.sym->0).0@;
                    let (p2, s2) = choose|p2: Seq<char>, s2: Seq<char>| ttext@ == #[trigger] (
                        p2 + t + s2);
                    assert(whole@ =~= out@ + " -> "@ + (p2 + t + s2));
                    assert(whole@ =~= out@ + " -> "@ + p2 + t + s2);
                    if Self::spec_target_style((self.sym->0).1) == spec_plain() {
                        assert(whole@ =~= out@ + " -> "@ + t);
                    }
                    lemma_embeds_extend(out@, self.name@, Seq::empty(), " -> "@ + ttext@);
                    assert(Seq::<char>::empty() + out@ + (" -> "@ + ttext@) =~= whole@);
                }
                return whole;
            }
        }
        out
    }

    /// Pads every row to the listing's column widths and paints the names:
    /// the six leading columns are padded to the widths `CountedEntry`
    /// measured from the raw field texts, so the name's color codes, added
    /// only here, never take part in the width arithmetic.
    pub fn pad(list: Vec<FormattedEntry>, opts: &Opts, table: &ColorTable)
        -> (r: Vec<FormattedEntry>)
        ensures
            r@.len() == list@.len(),
            forall|k: int| 0 <= k < list@.len() ==> {
                let w = spec_max_counts(list@);
                &&& (#[trigger] r@[k]).mode@ == spec_pad_start(list@[k].mode@, w.0, ' ')
                &&& r@[k].links@ == spec_pad_start(list@[k].links@, w.1, ' ')
                &&& r@[k].user@ == spec_pad_end(list@[k].user@, w.2, ' ')
                &&& r@[k].group@ == spec_pad_end(list@[k].group@, w.3, ' ')
                &&& r@[k].size@ == spec_pad_start(list@[k].size@, w.4, ' ')
                &&& r@[k].modified@ == spec_pad_start(list@[k].modified@, w.5, ' ')
                &&& r@[k].sym == list@[k].sym
                &&& spec_embeds(r@[k].name@, list@[k].name@)
            },
            forall|k: int| 0 <= k < list@.len() ==> {
                let w = spec_max_counts(list@);
                &&& (#[trigger] r@[k]).mode@.len() == w.0
                &&& r@[k].links@.len() == w.1
                &&& r@[k].user@.len() == w.2
                &&& r@[k].group@.len() == w.3
                &&& r@[k].size@.len() == w.4
                &&& r@[k].modified@.len() == w.5
            },
    {
        let mut max_len = CountedEntry::new();
        let n = list.len();
        let mut i: usize = 0;
        proof {
            assert(spec_max_counts(list@.take(0)) == (0int, 0int, 0int, 0int, 0int, 0int));
        }
        while i < n
            invariant
                i <= n,
                n == list@.len(),
                (max_len.mode as int, max_len.links as int, max_len.user as int,
                    max_len.group as int, max_len.size as int, max_len.modified as int)
                    == spec_max_counts(list@.take(i as int)),
            decreases n - i,
        {
            proof {
                assert(list@.take(i + 1).drop_last() =~= list@.take(i as int));
                assert(list@.take(i + 1).last() == list@[i as int]);
            }
            max_len.next(&list[i]);
            i += 1;
        }
        proof {
            assert(list@.take(n as int) =~= list@);
        }
        let ghost w = spec_max_counts(list@);
        let mut out: Vec<FormattedEntry> = Vec::new();
        let mut rest = list;
        let ghost src = rest@;
        let mut k: usize = 0;
        proof {
            assert(src.skip(0) =~= src);
        }
        while rest.len() > 0
            invariant
                0 <= k as int <= src.len(),
                rest@ == src.skip(k as int),
                out@.len() == k,
                n == src.len(),
                k <= n,
                (max_len.mode as int, max_len.links as int, max_len.user as int,
                    max_len.group as int, max_len.size as int, max_len.modified as int) == w,
                w == spec_max_counts(src),
                forall|p: int| 0 <= p < k ==> {
                    &&& (#[trigger] out@[p]).mode@ == spec_pad_start(src[p].mode@, w.0, ' ')
                    &&& out@[p].links@ == spec_pad_start(src[p].links@, w.1, ' ')
                    &&& out@[p].user@ == spec_pad_end(src[p].user@, w.2, ' ')
                    &&& out@[p].group@ == spec_pad_end(src[p].group@, w.3, ' ')
                    &&& out@[p].size@ == spec_pad_start(src[p].size@, w.4, ' ')
                    &&& out@[p].modified@ == spec_pad_start(src[p].modified@, w.5, ' ')
                    &&& out@[p].sym == src[p].sym
                    &&& spec_embeds(out@[p].name@, src[p].name@)
                },
            decreases rest@.len(),
        {
            proof {
                assert(src.skip(k as int)[0] == src[k as int]);
                assert(src.skip(k as int).remove(0) =~= src.skip(k as int + 1));
            }
            let e = rest.remove(0);
            let padded = max_len.apply(&e, opts, table);
            out.push(padded);
            k += 1;
        }
        proof {
            assert forall|p: int| 0 <= p < src.len() implies {
                let ww = spec_max_counts(src);
                &&& (#[trigger] out@[p]).mode@.len() == ww.0
                &&& out@[p].links@.len() == ww.1
                &&& out@[p].user@.len() == ww.2
                &&& out@[p].group@.len() == ww.3
                &&& out@[p].size@.len() == ww.4
                &&& out@[p].modified@.len() == ww.5
            } by {
                lemma_max_counts_bound(src, p);
            }
        }
        out
    }
}

// ---------------------------------------------------------------------------
// Assembling output lines
// ---------------------------------------------------------------------------

/// Whether every member of the listing has a file name.
pub open spec fn spec_all_named(s: Seq<FilesEntry>) -> bool {
    forall|k: int|
        0 <= k < s.len() ==> spec_name_of(spec_type_path(&(#[trigger] s[k]).file_type)) is Some
}

/// The rows a listing yields, in order: with `all_files` a row `.` for the
/// root itself and a row `..` for its parent (the root standing in when the
/// parent is unknown), then one row per member that has a file name, under
/// that name.
pub fn get_formatted_list(list: &FilesList, opts: &Opts,
    targets: &Vec<Option<(FormattedFile, bool)>>) -> (r: Vec<FormattedEntry>)
    requires
        targets@.len() == list.entries@.len(),
    ensures
        opts.all_files ==> r@.len() >= 2 && spec_formatted(r@[0], list.dir, "."@, None)
            && spec_formatted(r@[1], (match list.up_dir {
            Some(u) => u,
            None => list.dir,
        }), ".."@, None),
        spec_all_named(list.entries@) ==> {
            let off = if opts.all_files { 2int } else { 0int };
            &&& r@.len() == off + list.entries@.len()
            &&& forall|j: int| off <= j < r@.len() ==> spec_formatted(#[trigger] r@[j],
                list.entries@[j - off], spec_name_of(spec_type_path(&list.entries@[
                j - off].file_type))->0, targets@[j - off])
        },
{
    let mut format_list: Vec<FormattedEntry> = Vec::new();
    let ghost off: int = if opts.all_files { 2int } else { 0int };
    if opts.all_files {
        format_list.push(FormattedEntry::new(&list.dir, ".", None));
        match &list.up_dir {
            Some(dir) => format_list.push(FormattedEntry::new(dir, "..", None)),
            None => format_list.push(FormattedEntry::new(&list.dir, "..", None)),
        }
    }
    let n = list.entries.len();
    let mut i: usize = 0;
    while i < n
        invariant
            i <= n,
            n == list.entries@.len(),
            targets@.len() == n,
            off == (if opts.all_files { 2int } else { 0int }),
            opts.all_files ==> format_list@.len() >= 2 && spec_formatted(format_list@[0],
                list.dir, "."@, None) && spec_formatted(format_list@[1], (match list.up_dir {
                Some(u) => u,
                None => list.dir,
            }), ".."@, None),
            spec_all_named(list.entries@) ==> format_list@.len() == off + i,
            spec_all_named(list.entries@) ==> forall|j: int| off <= j < format_list@.len()
                ==> spec_formatted(#[trigger] format_list@[j], list.entries@[j - off],
                spec_name_of(spec_type_path(&list.entries@[j - off].file_type))->0, targets@[
                j - off]),
        decreases n - i,
    {
        let entry = &list.entries[i];
        if let Some(file_name) = entry.name() {
            format_list.push(FormattedEntry::new(entry, file_name.as_str(), targets[i]));
        }
        i += 1;
    }
    format_list
}

/// The display names of a listing's rows, in order: `.` and `..` first when
/// hidden entries are shown, then each member's own name. Meaningful when
/// every member has one.
pub open spec fn spec_display_names(list: FilesList, all_files: bool) -> Seq<Seq<char>> {
    let members = list.entries@.map_values(|e: FilesEntry| spec_name_of(spec_type_path(
        &e.file_type))->0);
    if all_files {
        seq!["."@, ".."@] + members
    } else {
        members
    }
}

/// The entry each display position is built from: the root for `.`, its
/// parent (or the root again) for `..`, then the members.
pub open spec fn spec_row_entries(list: FilesList, all_files: bool) -> Seq<FilesEntry> {
    let pre: Seq<FilesEntry> = if all_files {
        seq![list.dir, (match list.up_dir {
            Some(u) => u,
            None => list.dir,
        })]
    } else {
        Seq::empty()
    };
    pre + list.entries@
}

/// The pieces joined with two spaces between each pair.
pub open spec fn spec_join_names(s: Seq<Seq<char>>) -> Seq<char>
    decreases s.len(),
{
    if s.len() == 0 {
        Seq::empty()
    } else if s.len() == 1 {
        s[0]
    } else {
        spec_join_names(s.drop_last()) + "  "@ + s.last()
    }
}

/// The seven field texts of one row, before padding.
pub type RowFields = (Seq<char>, Seq<char>, Seq<char>, Seq<char>, Seq<char>, Seq<char>,
    Seq<char>);

/// The raw texts of a row built from an entry under a display name: mode,
/// link count, owner, group, size, timestamp and name.
pub open spec fn spec_field_texts(e: FilesEntry, name: Seq<char>) -> RowFields {
    (
        spec_mode_str(&e.file_type, e.perms),
        spec_nat_str(e.links as int),
        match e.user {
            Some(u) => u@,
            None => "-"@,
        },
        match e.group {
            Some(g) => g@,
            None => "-"@,
        },
        spec_nat_str(e.size as int),
        e.modified@,
        name,
    )
}

/// The raw texts of every row of a listing, in display order.
pub open spec fn spec_row_fields(list: FilesList, all_files: bool) -> Seq<RowFields> {
    Seq::new(spec_row_entries(list, all_files).len(), |k: int| spec_field_texts(
        spec_row_entries(list, all_files)[k], spec_display_names(list, all_files)[k]))
}

/// The width of each of the six leading columns: the greatest raw length.
pub open spec fn spec_widths_of(fs: Seq<RowFields>) -> (int, int, int, int, int, int)
    decreases fs.len(),
{
    if fs.len() == 0 {
        (0int, 0int, 0int, 0int, 0int, 0int)
    } else {
        let w = spec_widths_of(fs.drop_last());
        let f = fs.last();
        (
            if f.0.len() > w.0 { f.0.len() as int } else { w.0 },
            if f.1.len() > w.1 { f.1.len() as int } else { w.1 },
            if f.2.len() > w.2 { f.2.len() as int } else { w.2 },
            if f.3.len() > w.3 { f.3.len() as int } else { w.3 },
            if f.4.len() > w.4 { f.4.len() as int } else { w.4 },
            if f.5.len() > w.5 { f.5.len() as int } else { w.5 },
        )
    }
}

/// The column widths of a listing's long form.
pub open spec fn spec_row_widths(list: FilesList, all_files: bool) -> (int, int, int, int,
    int, int) {
    spec_widths_of(spec_row_fields(list, all_files))
}

/// Everything of a long-form line but the painted name: the six leading
/// fields padded to the column widths, each followed by one space.
pub open spec fn spec_row_prefix(f: RowFields, w: (int, int, int, int, int, int))
    -> Seq<char> {
    spec_pad_start(f.0, w.0, ' ') + " "@ + spec_pad_start(f.1, w.1, ' ') + " "@
        + spec_pad_end(f.2, w.2, ' ') + " "@ + spec_pad_end(f.3, w.3, ' ') + " "@
        + spec_pad_start(f.4, w.4, ' ') + " "@ + spec_pad_start(f.5, w.5, ' ') + " "@
}

/// Whether a long-form line is well formed for the given raw fields: the
/// padded prefix followed by a painted name inside which the raw name
/// stands whole.
pub open spec fn spec_row_line_ok(line: Seq<char>, f: RowFields,
    w: (int, int, int, int, int, int)) -> bool {
    exists|nm: Seq<char>|
        #![trigger spec_embeds(nm, f.6)]
        {
            &&& spec_embeds(nm, f.6)
            &&& line == spec_row_prefix(f, w) + nm
        }
}

/// Rows whose six leading field texts agree measure the same column widths.
proof fn lemma_widths_agree(rows: Seq<FormattedEntry>, fs: Seq<RowFields>)
    requires
        rows.len() == fs.len(),
        forall|j: int| 0 <= j < rows.len() ==> {
            &&& (#[trigger] rows[j]).mode@ == fs[j].0
            &&& rows[j].links@ == fs[j].1
            &&& rows[j].user@ == fs[j].2
            &&& rows[j].group@ == fs[j].3
            &&& rows[j].size@ == fs[j].4
            &&& rows[j].modified@ == fs[j].5
        },
    ensures
        spec_max_counts(rows) == spec_widths_of(fs),
    decreases rows.len(),
{
    if rows.len() > 0 {
        assert forall|j: int| 0 <= j < rows.drop_last().len() implies {
            &&& (#[trigger] rows.drop_last()[j]).mode@ == fs.drop_last()[j].0
            &&& rows.drop_last()[j].links@ == fs.drop_last()[j].1
            &&& rows.drop_last()[j].user@ == fs.drop_last()[j].2
            &&& rows.drop_last()[j].group@ == fs.drop_last()[j].3
            &&& rows.drop_last()[j].size@ == fs.drop_last()[j].4
            &&& rows.drop_last()[j].modified@ == fs.drop_last()[j].5
        } by {
            assert(rows.drop_last()[j] == rows[j]);
            assert(fs.drop_last()[j] == fs[j]);
        }
        lemma_widths_agree(rows.drop_last(), fs.drop_last());
        assert(rows.last() == rows[rows.len() - 1]);
        assert(fs.last() == fs[fs.len() - 1]);
    }
}

/// One long-form line: the seven fields separated by single spaces.
pub fn format_row(f: &FormattedEntry) -> (r: String)
    ensures
        r@ == f.mode@ + " "@ + f.links@ + " "@ + f.user@ + " "@ + f.group@ + " "@ + f.size@
            + " "@ + f.modified@ + " "@ + f.name@,
{
    let mut out = f.mode.clone();
    out.append(" ");
    out.append(f.links.as_str());
    out.append(" ");
    out.append(f.user.as_str());
    out.append(" ");
    out.append(f.group.as_str());
    out.append(" ");
    out.append(f.size.as_str());
    out.append(" ");
    out.append(f.modified.as_str());
    out.append(" ");
    out.append(f.name.as_str());
    proof {
        assert(out@ =~= f.mode@ + " "@ + f.links@ + " "@ + f.user@ + " "@ + f.group@ + " "@
            + f.size@ + " "@ + f.modified@ + " "@ + f.name@);
    }
    out
}

/// The long form of one listing: a `total <blocks>` line, then one line per
/// row with the seven fields padded to the listing's column widths; each
/// row line is its padded prefix followed by the painted name, inside which
/// the raw name stands whole.
#[verifier::rlimit(80)]
pub fn output_one_list(list: &FilesList, opts: &Opts,
    targets: &Vec<Option<(FormattedFile, bool)>>, table: &ColorTable) -> (r: Vec<String>)
    requires
        targets@.len() == list.entries@.len(),
    ensures
        r@.len() >= 1,
        r@[0]@ == "total "@ + spec_int_str(list.blocks as int),
        spec_all_named(list.entries@) ==> r@.len() == 1 + (if opts.all_files { 2int } else {
            0int
        }) + list.entries@.len(),
        spec_all_named(list.entries@) ==> forall|j: int| 1 <= j < r@.len()
            ==> spec_row_line_ok((#[trigger] r@[j])@, spec_row_fields(*list, opts.all_files)[
            j - 1], spec_row_widths(*list, opts.all_files)),
{
    let raw = get_formatted_list(list, opts, targets);
    let ghost rv = raw@;
    let ghost named = spec_all_named(list.entries@);
    let ghost dn = spec_display_names(*list, opts.all_files);
    let ghost re = spec_row_entries(*list, opts.all_files);
    let ghost fs = spec_row_fields(*list, opts.all_files);
    let ghost w = spec_row_widths(*list, opts.all_files);
    let ghost off: int = if opts.all_files { 2int } else { 0int };
    proof {
        assert(re.len() == off + list.entries@.len());
        assert(fs.len() == re.len());
        if named {
            assert(rv.len() == fs.len());
            assert forall|j: int| 0 <= j < rv.len() implies {
                &&& (#[trigger] rv[j]).mode@ == fs[j].0
                &&& rv[j].links@ == fs[j].1
                &&& rv[j].user@ == fs[j].2
                &&& rv[j].group@ == fs[j].3
                &&& rv[j].size@ == fs[j].4
                &&& rv[j].modified@ == fs[j].5
                &&& rv[j].name@ == fs[j].6
            } by {
                if j < off {
                    assert(opts.all_files);
                    if j == 0 {
                        assert(spec_formatted(rv[0], list.dir, "."@, None));
                        assert(re[0] == list.dir && dn[0] == "."@);
                    } else {
                        assert(spec_formatted(rv[1], (match list.up_dir {
                            Some(u) => u,
                            None => list.dir,
                        }), ".."@, None));
                        assert(re[1] == (match list.up_dir {
                            Some(u) => u,
                            None => list.dir,
                        }) && dn[1] == ".."@);
                    }
                } else {
                    assert(spec_formatted(rv[j], list.entries@[j - off], spec_name_of(
                        spec_type_path(&list.entries@[j - off].file_type))->0, targets@[
                        j - off]));
                    assert(re[j] == list.entries@[j - off]);
                    assert(dn[j] == spec_name_of(spec_type_path(&list.entries@[
                        j - off].file_type))->0);
                }
                assert(fs[j] == spec_field_texts(re[j], dn[j]));
            }
            lemma_widths_agree(rv, fs);
        }
    }
    let format_list = FormattedEntry::pad(raw, opts, table);
    proof {
        if named {
            assert forall|k: int| 0 <= k < rv.len() implies {
                &&& (#[trigger] format_list@[k]).mode@ == spec_pad_start(fs[k].0, w.0, ' ')
                &&& format_list@[k].links@ == spec_pad_start(fs[k].1, w.1, ' ')
                &&& format_list@[k].user@ == spec_pad_end(fs[k].2, w.2, ' ')
                &&& format_list@[k].group@ == spec_pad_end(fs[k].3, w.3, ' ')
                &&& format_list@[k].size@ == spec_pad_start(fs[k].4, w.4, ' ')
                &&& format_list@[k].modified@ == spec_pad_start(fs[k].5, w.5, ' ')
                &&& spec_embeds(format_list@[k].name@, fs[k].6)
            } by {
                assert(format_list@[k].mode@ == spec_pad_start(rv[k].mode@,
                    spec_max_counts(rv).0, ' '));
            }
        }
    }

    let mut lines: Vec<String> = Vec::new();
    let mut total = String::from_str("total ");
    let blocks_text = i64_to_string(list.blocks);
    total.append(blocks_text.as_str());
    lines.push(total);
    let n = format_list.len();
    let mut i: usize = 0;
    let ghost mut nms: Seq<Seq<char>> = Seq::empty();
    while i < n
        invariant
            i <= n,
            n == format_list@.len(),
            lines@.len() == 1 + i,
            lines@[0]@ == "total "@ + spec_int_str(list.blocks as int),
            named == spec_all_named(list.entries@),
            fs == spec_row_fields(*list, opts.all_files),
            w == spec_row_widths(*list, opts.all_files),
            named ==> n == fs.len(),
            nms.len() == i,
            named ==> forall|k: int| 0 <= k < n ==> {
                &&& (#[trigger] format_list@[k]).mode@ == spec_pad_start(fs[k].0, w.0, ' ')
                &&& format_list@[k].links@ == spec_pad_start(fs[k].1, w.1, ' ')
                &&& format_list@[k].user@ == spec_pad_end(fs[k].2, w.2, ' ')
                &&& format_list@[k].group@ == spec_pad_end(fs[k].3, w.3, ' ')
                &&& format_list@[k].size@ == spec_pad_start(fs[k].4, w.4, ' ')
                &&& format_list@[k].modified@ == spec_pad_start(fs[k].5, w.5, ' ')
                &&& spec_embeds(format_list@[k].name@, fs[k].6)
            },
            named ==> forall|k: int| 0 <= k < i ==> spec_embeds(#[trigger] nms[k], fs[k].6),
            named ==> forall|k: int| 0 <= k < i ==> (#[trigger] lines@[k + 1])@
                == spec_row_prefix(fs[k], w) + nms[k],
        decreases n - i,
    {
        let line = format_row(&format_list[i]);
        proof {
            nms = nms.push(format_list@[i as int].name@);
            if named {
                let row = format_list@[i as int];
                assert(line@ =~= spec_row_prefix(fs[i as int], w) + row.name@);
            }
        }
        lines.push(line);
        i += 1;
    }
    proof {
        if named {
            assert forall|j: int| 1 <= j < lines@.len() implies spec_row_line_ok(
                (#[trigger] lines@[j])@, spec_row_fields(*list, opts.all_files)[j - 1],
                spec_row_widths(*list, opts.all_files)) by {
                assert(spec_embeds(nms[j - 1], fs[j - 1].6));
                assert(lines@[(j - 1) + 1]@ == spec_row_prefix(fs[j - 1], w) + nms[j - 1]);
                assert(spec_embeds(nms[j - 1], spec_row_fields(*list, opts.all_files)[
                    j - 1].6));
                assert(lines@[j]@ == spec_row_prefix(spec_row_fields(*list, opts.all_files)[
                    j - 1], spec_row_widths(*list, opts.all_files)) + nms[j - 1]);
            }
        }
    }
    lines
}

/// The short form of one listing: the painted names two spaces apart on a
/// single line. The raw display names stand in order inside the line, and
/// where every row's style is plain the line is exactly the names joined by
/// two spaces.
#[verifier::rlimit(80)]
pub fn output_short_format(list: &FilesList, opts: &Opts,
    targets: &Vec<Option<(FormattedFile, bool)>>, table: &ColorTable) -> (r: String)
    requires
        targets@.len() == list.entries@.len(),
    ensures
        spec_all_named(list.entries@) ==> exists|rendered: Seq<Seq<char>>|
            #![trigger spec_join_names(rendered)]
            {
                &&& rendered.len() == spec_display_names(*list, opts.all_files).len()
                &&& r@ == spec_join_names(rendered)
                &&& forall|k: int| 0 <= k < rendered.len() ==> spec_embeds(
                    #[trigger] rendered[k], spec_display_names(*list, opts.all_files)[k])
            },
        (spec_all_named(list.entries@) && !opts.long_format && (forall|k: int| 0 <= k
            < spec_display_names(*list, opts.all_files).len() ==> spec_row_style(
            #[trigger] spec_row_entries(*list, opts.all_files)[k], spec_display_names(*list,
            opts.all_files)[k], table@) == spec_plain())) ==> r@ == spec_join_names(
            spec_display_names(*list, opts.all_files)),
{
    let format_list = get_formatted_list(list, opts, targets);
    let ghost named = spec_all_named(list.entries@);
    let ghost dn = spec_display_names(*list, opts.all_files);
    let ghost re = spec_row_entries(*list, opts.all_files);
    let ghost all_plain = forall|k: int| 0 <= k < dn.len() ==> spec_row_style(
        #[trigger] re[k], dn[k], table@) == spec_plain();
    let ghost off: int = if opts.all_files { 2int } else { 0int };
    let mut out = String::new();
    let mut first: bool = true;
    let n = format_list.len();
    let mut i: usize = 0;
    let ghost mut rendered: Seq<Seq<char>> = Seq::empty();
    proof {
        assert(dn.len() == off + list.entries@.len());
        if named {
            assert(n == dn.len());
        }
    }
    while i < n
        invariant
            i <= n,
            n == format_list@.len(),
            first <==> i == 0,
            named == spec_all_named(list.entries@),
            dn == spec_display_names(*list, opts.all_files),
            re == spec_row_entries(*list, opts.all_files),
            off == (if opts.all_files { 2int } else { 0int }),
            all_plain == (forall|k: int| 0 <= k < dn.len() ==> spec_row_style(
                #[trigger] re[k], dn[k], table@) == spec_plain()),
            named ==> n == dn.len(),
            rendered.len() == i,
            out@ == spec_join_names(rendered),
            named ==> forall|k: int| 0 <= k < i ==> spec_embeds(#[trigger] rendered[k],
                dn[k]),
            (named && all_plain && !opts.long_format) ==> rendered == dn.take(i as int),
            opts.all_files ==> format_list@.len() >= 2 && spec_formatted(format_list@[0],
                list.dir, "."@, None) && spec_formatted(format_list@[1], (match list.up_dir {
                Some(u) => u,
                None => list.dir,
            }), ".."@, None),
            named ==> forall|j: int| off <= j < format_list@.len() ==> spec_formatted(
                #[trigger] format_list@[j], list.entries@[j - off], spec_name_of(
                spec_type_path(&list.entries@[j - off].file_type))->0, targets@[j - off]),
        decreases n - i,
    {
        if !first {
            out.append("  ");
        }
        let name = format_list[i].get_colored_name(opts, table);
        proof {
            let row = format_list@[i as int];
            if named {
                if i < off {
                    assert(opts.all_files);
                    if i == 0 {
                        assert(re[i as int] == list.dir && dn[i as int] == "."@);
                        lemma_row_style(row, re[i as int], dn[i as int], None, table@);
                    } else {
                        assert(re[i as int] == (match list.up_dir {
                            Some(u) => u,
                            None => list.dir,
                        }) && dn[i as int] == ".."@);
                        lemma_row_style(row, re[i as int], dn[i as int], None, table@);
                    }
                } else {
                    assert(spec_formatted(format_list@[i as int], list.entries@[i - off],
                        spec_name_of(spec_type_path(&list.entries@[i - off].file_type))->0,
                        targets@[i - off]));
                    assert(re[i as int] == list.entries@[i - off]);
                    assert(dn[i as int] == spec_name_of(spec_type_path(&list.entries@[
                        i - off].file_type))->0);
                    lemma_row_style(row, re[i as int], dn[i as int], targets@[i - off],
                        table@);
                }
                assert(row.name@ == dn[i as int]);
                assert(spec_embeds(name@, dn[i as int]));
                if all_plain && !opts.long_format {
                    assert(row.spec_name_style(table@) == spec_plain());
                    assert(name@ == dn[i as int]);
                }
            }
        }
        out.append(name.as_str());
        proof {
            let prev = rendered;
            rendered = rendered.push(name@);
            assert(rendered.drop_last() =~= prev);
            assert(rendered.last() == name@);
            if i == 0 {
                assert(out@ =~= name@);
                assert(spec_join_names(rendered) == name@);
            } else {
                assert(out@ =~= spec_join_names(prev) + "  "@ + name@);
            }
            if named && all_plain && !opts.long_format {
                assert(rendered =~= dn.take(i + 1));
            }
        }
        first = false;
        i += 1;
    }
    proof {
        if named {
            assert(rendered.len() == dn.len());
            if all_plain && !opts.long_format {
                assert(rendered =~= dn);
                assert(out@ == spec_join_names(dn));
            }
        }
    }
    out
}

/// The heading a listing is shown under when several roots were requested:
/// the root's file name (or its whole path where it has none), then `:`.
pub open spec fn spec_heading_text(l: FilesList) -> Seq<char> {
    (match spec_name_of(spec_type_path(&l.dir.file_type)) {
        Some(n) => n,
        None => spec_type_path(&l.dir.file_type),
    }) + ":"@
}

/// The headings of all the listings of a run, in order.
pub open spec fn spec_headings(data: Seq<FilesList>) -> Seq<Seq<char>> {
    Seq::new(data.len(), |k: int| spec_heading_text(data[k]))
}

/// How many lines one listing's body takes.
pub open spec fn spec_body_len(l: FilesList, opts: Opts) -> int {
    if opts.long_format {
        1 + (if opts.all_files {
            2int
        } else {
            0int
        }) + l.entries@.len()
    } else {
        1
    }
}

/// The lines of a whole run given each listing's body: the bodies in order,
/// a blank line before every block but the first, and the heading over each
/// block when `multi`.
pub open spec fn spec_assembled(heads: Seq<Seq<char>>, bodies: Seq<Seq<Seq<char>>>,
    multi: bool) -> Seq<Seq<char>>
    decreases bodies.len(),
{
    if bodies.len() == 0 {
        Seq::empty()
    } else {
        spec_assembled(heads.drop_last(), bodies.drop_last(), multi) + (if bodies.len() > 1 {
            seq![Seq::<char>::empty()]
        } else {
            Seq::<Seq<char>>::empty()
        }) + (if multi {
            seq![heads.last()]
        } else {
            Seq::<Seq<char>>::empty()
        }) + bodies.last()
    }
}

/// All the lines of a run: each listing in the chosen form, a blank line
/// between listings, and a `<name>:` heading over each when more than one
/// root was requested; in long form every body opens with its `total` line.
#[verifier::rlimit(80)]
pub fn output(data: &Vec<FilesList>, opts: &Opts,
    targets: &Vec<Vec<Option<(FormattedFile, bool)>>>, table: &ColorTable) -> (r: Vec<String>)
    requires
        targets@.len() == data@.len(),
        forall|k: int| 0 <= k < data@.len() ==> (#[trigger] targets@[k])@.len()
            == data@[k].entries@.len(),
    ensures
        data@.len() == 0 ==> r@.len() == 0,
        !opts.long_format && data@.len() == 1 ==> r@.len() == 1,
        !opts.long_format && data@.len() > 1 ==> r@.len() == 3 * data@.len() - 1,
        (opts.long_format ==> forall|k: int| 0 <= k < data@.len() ==> spec_all_named(
            (#[trigger] data@[k]).entries@)) ==> exists|bodies: Seq<Seq<Seq<char>>>|
            #![trigger bodies.len()]
            {
                &&& bodies.len() == data@.len()
                &&& r.deep_view() == spec_assembled(spec_headings(data@), bodies,
                    data@.len() > 1)
                &&& forall|k: int| 0 <= k < data@.len() ==> (#[trigger] bodies[k]).len()
                    == spec_body_len(data@[k], *opts)
                &&& opts.long_format ==> forall|k: int| 0 <= k < data@.len()
                    ==> (#[trigger] bodies[k])[0] == "total "@ + spec_int_str(
                    data@[k].blocks as int)
            },
{
    let ghost hh = opts.long_format ==> forall|k: int| 0 <= k < data@.len()
        ==> spec_all_named((#[trigger] data@[k]).entries@);
    let ghost heads = spec_headings(data@);
    let ghost mut bodies: Seq<Seq<Seq<char>>> = Seq::empty();
    let mut lines: Vec<String> = Vec::new();
    let n = data.len();
    let mut i: usize = 0;
    proof {
        assert(heads.take(0) =~~= Seq::<Seq<char>>::empty());
        assert(lines.deep_view() =~~= spec_assembled(heads.take(0), bodies, n > 1));
    }
    while i < n
        invariant
            i <= n,
            n == data@.len(),
            targets@.len() == n,
            forall|k: int| 0 <= k < n ==> (#[trigger] targets@[k])@.len()
                == data@[k].entries@.len(),
            n == 0 ==> lines@.len() == 0,
            !opts.long_format && n == 1 ==> lines@.len() == i,
            !opts.long_format && n > 1 ==> lines@.len() == (if i == 0 { 0int } else {
                3 * i - 1
            }),
            hh == (opts.long_format ==> forall|k: int| 0 <= k < data@.len()
                ==> spec_all_named((#[trigger] data@[k]).entries@)),
            heads == spec_headings(data@),
            bodies.len() == i,
            hh ==> lines.deep_view() == spec_assembled(heads.take(i as int), bodies, n > 1),
            hh ==> forall|k: int| 0 <= k < i ==> (#[trigger] bodies[k]).len()
                == spec_body_len(data@[k], *opts),
            (hh && opts.long_format) ==> forall|k: int| 0 <= k < i ==> (
            #[trigger] bodies[k])[0] == "total "@ + spec_int_str(data@[k].blocks as int),
        decreases n - i,
    {
        let ghost base = lines.deep_view();
        let list = &data[i];
        if i > 0 {
            lines.push(String::new());
        }
        if n > 1 {
            let mut heading = match list.dir.name() {
                Some(name) => name,
                None => list.dir.path().clone(),
            };
            heading.append(":");
            proof {
                assert(heading@ =~= spec_heading_text(data@[i as int]));
                assert(heads[i as int] == spec_heading_text(data@[i as int]));
            }
            lines.push(heading);
        }
        let ghost mid = lines.deep_view();
        proof {
            assert(mid =~~= base + (if i > 0 {
                seq![Seq::<char>::empty()]
            } else {
                Seq::<Seq<char>>::empty()
            }) + (if n > 1 {
                seq![heads[i as int]]
            } else {
                Seq::<Seq<char>>::empty()
            }));
        }
        let ghost body_dv: Seq<Seq<char>>;
        if opts.long_format {
            let body = output_one_list(list, opts, &targets[i], table);
            proof {
                body_dv = body.deep_view();
                if hh {
                    assert(spec_all_named(data@[i as int].entries@));
                    assert(body_dv.len() == body@.len());
                    assert(body_dv[0] =~= body@[0]@);
                }
            }
            let m = body.len();
            let mut k: usize = 0;
            let mut body_mut = body;
            proof {
                assert(mid + body_dv.take(0) =~~= mid);
            }
            while k < m
                invariant
                    k <= m,
                    m == body_mut@.len(),
                    body_dv == body_mut.deep_view(),
                    lines.deep_view() == mid + body_dv.take(k as int),
                decreases m - k,
            {
                let ghost before_dv = lines.deep_view();
                lines.push(body_mut[k].clone());
                k += 1;
                proof {
                    assert(body_dv[k - 1] =~= body_mut@[k - 1]@);
                    assert(lines.deep_view() =~~= before_dv.push(body_dv[k - 1]));
                    assert(body_dv.take(k as int).drop_last() =~~= body_dv.take(k - 1));
                    assert(body_dv.take(k as int).last() == body_dv[k - 1]);
                    assert(mid + body_dv.take(k as int) =~~= (mid + body_dv.take(k - 1)).push(
                        body_dv[k - 1]));
                    assert(lines.deep_view() =~~= mid + body_dv.take(k as int));
                }
            }
            proof {
                assert(body_dv.take(m as int) =~~= body_dv);
            }
        } else {
            let line = output_short_format(list, opts, &targets[i], table);
            proof {
                body_dv = seq![line@];
            }
            lines.push(line);
            proof {
                assert(lines.deep_view() =~~= mid + body_dv);
            }
        }
        proof {
            let prev = bodies;
            bodies = bodies.push(body_dv);
            if hh {
                assert(bodies.drop_last() =~~= prev);
                assert(bodies.last() == body_dv);
                assert(heads.take(i + 1).drop_last() =~~= heads.take(i as int));
                assert(heads.take(i + 1).last() == heads[i as int]);
                assert(spec_assembled(heads.take(i + 1), bodies, n > 1) =~~= spec_assembled(
                    heads.take(i as int), prev, n > 1) + (if i + 1 > 1 {
                    seq![Seq::<char>::empty()]
                } else {
                    Seq::<Seq<char>>::empty()
                }) + (if n > 1 {
                    seq![heads[i as int]]
                } else {
                    Seq::<Seq<char>>::empty()
                }) + body_dv);
                assert(lines.deep_view() =~~= spec_assembled(heads.take(i + 1), bodies,
                    n > 1));
            }
        }
        i += 1;
    }
    proof {
        if hh {
            assert(heads.take(n as int) =~~= heads);
            assert(bodies.len() == data@.len());
            assert(lines.deep_view() == spec_assembled(spec_headings(data@), bodies,
                data@.len() > 1));
        }
    }
    lines
}

// ---------------------------------------------------------------------------
// Column widths
// ---------------------------------------------------------------------------

/// The width of each of the six leading columns over a row sequence: the
/// greatest raw length of the field in question.
pub open spec fn spec_max_counts(s: Seq<FormattedEntry>) -> (int, int, int, int, int, int)
    decreases s.len(),
{
    if s.len() == 0 {
        (0int, 0int, 0int, 0int, 0int, 0int)
    } else {
        let w = spec_max_counts(s.drop_last());
        let e = s.last();
        (
            if e.mode@.len() > w.0 { e.mode@.len() as int } else { w.0 },
            if e.links@.len() > w.1 { e.links@.len() as int } else { w.1 },
            if e.user@.len() > w.2 { e.user@.len() as int } else { w.2 },
            if e.group@.len() > w.3 { e.group@.len() as int } else { w.3 },
            if e.size@.len() > w.4 { e.size@.len() as int } else { w.4 },
            if e.modified@.len() > w.5 { e.modified@.len() as int } else { w.5 },
        )
    }
}

/// Every row's raw field length stays within the measured column width.
proof fn lemma_max_counts_bound(s: Seq<FormattedEntry>, p: int)
    requires
        0 <= p < s.len(),
    ensures
        ({
            let w = spec_max_counts(s);
            &&& s[p].mode@.len() <= w.0
            &&& s[p].links@.len() <= w.1
            &&& s[p].user@.len() <= w.2
            &&& s[p].group@.len() <= w.3
            &&& s[p].size@.len() <= w.4
            &&& s[p].modified@.len() <= w.5
        }),
    decreases s.len(),
{
    if p < s.len() - 1 {
        lemma_max_counts_bound(s.drop_last(), p);
    }
}

/// The running maxima of the six leading columns' raw text widths.
pub struct CountedEntry {
    pub mode: usize,
    pub links: usize,
    pub user: usize,
    pub group: usize,
    pub size: usize,
    pub modified: usize,
}

impl CountedEntry {
    /// Opens with every width at zero.
    pub fn new() -> (r: Self)
        ensures
            r.mode == 0 && r.links == 0 && r.user == 0 && r.group == 0 && r.size == 0
                && r.modified == 0,
    {
        Self { mode: 0, links: 0, user: 0, group: 0, size: 0, modified: 0 }
    }

    fn cmp_set(c: &mut usize, n: usize)
        ensures
            *final(c) == if n > *old(c) { n } else { *old(c) },
    {
        if n > *c {
            *c = n;
        }
    }

    /// Widens each column to hold the row's raw field text.
    pub fn next(&mut self, entry: &FormattedEntry)
        ensures
            ({
                let w = (final(self).mode as int, final(self).links as int,
                    final(self).user as int, final(self).group as int, final(self).size as int,
                    final(self).modified as int);
                let o = (old(self).mode as int, old(self).links as int, old(self).user as int,
                    old(self).group as int, old(self).size as int, old(self).modified as int);
                &&& w.0 == if entry.mode@.len() > o.0 { entry.mode@.len() as int } else { o.0 }
                &&& w.1 == if entry.links@.len() > o.1 { entry.links@.len() as int } else { o.1 }
                &&& w.2 == if entry.user@.len() > o.2 { entry.user@.len() as int } else { o.2 }
                &&& w.3 == if entry.group@.len() > o.3 { entry.group@.len() as int } else { o.3 }
                &&& w.4 == if entry.size@.len() > o.4 { entry.size@.len() as int } else { o.4 }
                &&& w.5 == if entry.modified@.len() > o.5 {
                    entry.modified@.len() as int
                } else {
                    o.5
                }
            }),
    {
        Self::cmp_set(&mut self.mode, entry.mode.as_str().unicode_len());
        Self::cmp_set(&mut self.links, entry.links.as_str().unicode_len());
        Self::cmp_set(&mut self.user, entry.user.as_str().unicode_len());
        Self::cmp_set(&mut self.group, entry.group.as_str().unicode_len());
        Self::cmp_set(&mut self.size, entry.size.as_str().unicode_len());
        Self::cmp_set(&mut self.modified, entry.modified.as_str().unicode_len());
    }

    /// Pads one row's six leading fields to these widths — numbers right,
    /// owner and group left — and paints its name.
    pub fn apply(&self, e: &FormattedEntry, opts: &Opts, table: &ColorTable)
        -> (r: FormattedEntry)
        ensures
            r.mode@ == spec_pad_start(e.mode@, self.mode as int, ' '),
            r.links@ == spec_pad_start(e.links@, self.links as int, ' '),
            r.user@ == spec_pad_end(e.user@, self.user as int, ' '),
            r.group@ == spec_pad_end(e.group@, self.group as int, ' '),
            r.size@ == spec_pad_start(e.size@, self.size as int, ' '),
            r.modified@ == spec_pad_start(e.modified@, self.modified as int, ' '),
            r.sym == e.sym,
            spec_embeds(r.name@, e.name@),
    {
        FormattedEntry {
            mode: e.mode.pad_start(self.mode, ' '),
            links: e.links.pad_start(self.links, ' '),
            user: e.user.pad_end(self.user, ' '),
            group: e.group.pad_end(self.group, ' '),
            size: e.size.pad_start(self.size, ' '),
            modified: e.modified.pad_start(self.modified, ' '),
            name: e.get_colored_name(opts, table),
            sym: match &e.sym {
                None => None,
                Some((t, res)) => Some((t.clone(), *res)),
            },
        }
    }
}

} // verus!
