use vstd::prelude::*;
use crate::utils::{
    str_to_chars, chars_to_string, rfind_char, StrUtil, spec_substr, spec_rfind, spec_embeds,
    lemma_embeds_intro, find_sub,
};

verus! {

// ---------------------------------------------------------------------------
// Display style
// ---------------------------------------------------------------------------

/// The display attributes a piece of text carries: a foreground and a
/// background color code, and the four style flags. The color codes are the
/// SGR numbers 30 through 37 (40 through 47 for the background), with 96
/// standing for bright cyan.
#[derive(Clone, Copy, PartialEq, Eq, Structural, Debug)]
pub struct Style {
    pub fg: Option<u8>,
    pub bg: Option<u8>,
    pub bold: bool,
    pub underline: bool,
    pub blink: bool,
    pub reverse: bool,
}

/// The style of plain text.
pub open spec fn spec_plain() -> Style {
    (Style { fg: None, bg: None, bold: false, underline: false, blink: false, reverse: false })
}

impl Style {
    /// The style of plain text.
    pub fn plain() -> (r: Style)
        ensures
            r == spec_plain(),
    {
        Style { fg: None, bg: None, bold: false, underline: false, blink: false, reverse: false }
    }
}

// ---------------------------------------------------------------------------
// Splitting text
// ---------------------------------------------------------------------------

/// The pieces of `s` between occurrences of `sep`: empty text gives one
/// empty piece, and every separator opens a new piece.
pub open spec fn spec_split(s: Seq<char>, sep: char) -> Seq<Seq<char>>
    decreases s.len(),
{
    if s.len() == 0 {
        seq![Seq::empty()]
    } else {
        let rest = spec_split(s.drop_first(), sep);
        if s[0] == sep {
            seq![Seq::<char>::empty()] + rest
        } else {
            seq![seq![s[0]] + rest[0]] + rest.drop_first()
        }
    }
}

/// A split always yields at least one piece.
pub proof fn lemma_split_nonempty(s: Seq<char>, sep: char)
    ensures
        spec_split(s, sep).len() >= 1,
    decreases s.len(),
{
    if s.len() > 0 {
        lemma_split_nonempty(s.drop_first(), sep);
    }
}

/// Splits `v` at every occurrence of `sep`.
pub fn split_chars(v: &Vec<char>, sep: char) -> (r: Vec<Vec<char>>)
    ensures
        r.deep_view() == spec_split(v@, sep),
{
    let mut pieces: Vec<Vec<char>> = Vec::new();
    let mut cur: Vec<char> = Vec::new();
    let mut i: usize = 0;
    proof {
        lemma_split_nonempty(v@, sep);
        assert(v@.skip(0) =~= v@);
        assert(spec_split(v@, sep) =~~= pieces.deep_view() + seq![cur@ + spec_split(
            v@.skip(0), sep)[0]] + spec_split(v@.skip(0), sep).drop_first());
    }
    while i < v.len()
        invariant
            i <= v.len(),
            spec_split(v@, sep) == pieces.deep_view() + seq![cur@ + spec_split(
                v@.skip(i as int), sep)[0]] + spec_split(v@.skip(i as int), sep).drop_first(),
        decreases v.len() - i,
    {
        let c = v[i];
        proof {
            lemma_split_nonempty(v@.skip(i + 1), sep);
            assert(v@.skip(i as int)[0] == v@[i as int]);
            assert(v@.skip(i as int).drop_first() =~= v@.skip(i + 1));
        }
        let ghost rest = spec_split(v@.skip(i + 1), sep);
        if c == sep {
            let done = cur;
            cur = Vec::new();
            pieces.push(done);
            proof {
                assert(spec_split(v@.skip(i as int), sep) =~~= seq![Seq::<char>::empty()]
                    + rest);
                assert(spec_split(v@, sep) =~~= pieces.deep_view() + seq![cur@ + rest[0]]
                    + rest.drop_first());
            }
        } else {
            cur.push(c);
            proof {
                assert(spec_split(v@.skip(i as int), sep) =~~= seq![seq![v@[i as int]]
                    + rest[0]] + rest.drop_first());
                assert(spec_split(v@, sep) =~~= pieces.deep_view() + seq![cur@ + rest[0]]
                    + rest.drop_first());
            }
        }
        i += 1;
    }
    proof {
        assert(v@.skip(v@.len() as int).len() == 0);
        assert(spec_split(v@.skip(v@.len() as int), sep) =~~= seq![Seq::<char>::empty()]);
    }
    pieces.push(cur);
    proof {
        assert(pieces.deep_view() =~~= spec_split(v@, sep));
    }
    pieces
}

// ---------------------------------------------------------------------------
// The extension table
// ---------------------------------------------------------------------------

/// One rule: a lowercase-as-given extension and the codes it applies.
pub struct ColorRule {
    pub ext: String,
    pub codes: Vec<String>,
}

impl View for ColorRule {
    type V = (Seq<char>, Seq<Seq<char>>);

    open spec fn view(&self) -> (Seq<char>, Seq<Seq<char>>) {
        (self.ext@, self.codes.deep_view())
    }
}

/// The extension-to-codes table, in the order the source text gave it.
pub struct ColorTable {
    pub rules: Vec<ColorRule>,
}

impl View for ColorTable {
    type V = Seq<(Seq<char>, Seq<Seq<char>>)>;

    open spec fn view(&self) -> Seq<(Seq<char>, Seq<Seq<char>>)> {
        Seq::new(self.rules@.len(), |i: int| self.rules@[i]@)
    }
}

/// The rule one `pattern=codes` entry yields: the entry must hold exactly
/// one `=`, and only a pattern of the shape `*.ext` is indexed — any other
/// shape is ignored. The key is what follows the pattern's last dot, the
/// codes are the `;`-separated pieces.
pub open spec fn spec_rule_of(entry: Seq<char>) -> Option<(Seq<char>, Seq<Seq<char>>)> {
    let pair = spec_split(entry, '=');
    if pair.len() != 2 {
        None
    } else if !(pair[0].len() >= 2 && pair[0][0] == '*' && pair[0][1] == '.') {
        None
    } else {
        match spec_rfind(pair[0], '.') {
            None => None,
            Some(i) => Some((spec_substr(pair[0], i + 1, usize::MAX as int), spec_split(
                pair[1], ';'))),
        }
    }
}

/// The rules of a sequence of entries, malformed ones skipped.
pub open spec fn spec_rules_of(es: Seq<Seq<char>>) -> Seq<(Seq<char>, Seq<Seq<char>>)>
    decreases es.len(),
{
    if es.len() == 0 {
        Seq::empty()
    } else {
        match spec_rule_of(es.first()) {
            Some(r) => seq![r] + spec_rules_of(es.drop_first()),
            None => spec_rules_of(es.drop_first()),
        }
    }
}

/// The whole table a source text yields: its `:`-separated entries' rules.
pub open spec fn spec_parse_table(src: Seq<char>) -> Seq<(Seq<char>, Seq<Seq<char>>)> {
    spec_rules_of(spec_split(src, ':'))
}

/// The codes for a key: those of the last rule bearing it, as a later entry
/// overwrites an earlier one.
pub open spec fn spec_lookup(t: Seq<(Seq<char>, Seq<Seq<char>>)>, key: Seq<char>)
    -> Option<Seq<Seq<char>>>
    decreases t.len(),
{
    if t.len() == 0 {
        None
    } else if t.last().0 == key {
        Some(t.last().1)
    } else {
        spec_lookup(t.drop_last(), key)
    }
}

impl ColorTable {
    /// Builds the table from the environment text the caller read: the text
    /// is split at `:` into `pattern=code;code;...` entries; an entry
    /// without exactly one `=` or without a dot in its pattern is skipped;
    /// what follows the pattern's last dot keys the codes. An absent source
    /// yields an empty table.
    pub fn build(src: &Option<String>) -> (r: ColorTable)
        ensures
            r@ == match src {
                None => Seq::<(Seq<char>, Seq<Seq<char>>)>::empty(),
                Some(s) => spec_parse_table(s@),
            },
    {
        let mut rules: Vec<ColorRule> = Vec::new();
        match src {
            None => {
                proof {
                    assert(Seq::new(rules@.len(), |i: int| rules@[i]@) =~= Seq::<(Seq<char>,
                        Seq<Seq<char>>)>::empty());
                }
                ColorTable { rules }
            },
            Some(s) => {
                let cs = str_to_chars(s.as_str());
                let entries = split_chars(&cs, ':');
                let ghost es = entries.deep_view();
                let n = entries.len();
                let mut i: usize = 0;
                proof {
                    assert(es.skip(0) =~= es);
                    assert(Seq::new(rules@.len(), |k: int| rules@[k]@) =~= Seq::<(Seq<char>,
                        Seq<Seq<char>>)>::empty());
                }
                while i < n
                    invariant
                        i <= n,
                        n == entries@.len(),
                        es == entries.deep_view(),
                        spec_parse_table(s@) == spec_rules_of(es),
                        spec_rules_of(es) == Seq::new(rules@.len(), |k: int| rules@[k]@)
                            + spec_rules_of(es.skip(i as int)),
                    decreases n - i,
                {
                    let ghost old_rules = rules@;
                    proof {
                        assert(es.skip(i as int).first() == es[i as int]);
                        assert(es.skip(i as int).drop_first() =~= es.skip(i + 1));
                        assert(entries@[i as int].deep_view() == es[i as int]);
                    }
                    let entry = &entries[i];
                    proof {
                        assert(entry@ =~= es[i as int]);
                    }
                    let pair = split_chars(entry, '=');
                    let name_len = if pair.len() == 2 {
                        pair[0].len()
                    } else {
                        0
                    };
                    if pair.len() == 2 && pair[0].len() >= 2 && pair[0][0] == '*'
                        && pair[0][1] == '.' {
                        let name = chars_to_string(&pair[0]);
                        proof {
                            assert(pair@[0]@ =~= pair.deep_view()[0]);
                            assert(pair@[1]@ =~= pair.deep_view()[1]);
                        }
                        if let Some(idx) = rfind_char(&pair[0], '.') {
                            let key = name.substr_after(idx + 1);
                            let code_text = chars_to_string(&pair[1]);
                            let code_chars = str_to_chars(code_text.as_str());
                            let code_pieces = split_chars(&code_chars, ';');
                            let mut codes: Vec<String> = Vec::new();
                            let m = code_pieces.len();
                            let mut k: usize = 0;
                            while k < m
                                invariant
                                    k <= m,
                                    m == code_pieces@.len(),
                                    codes@.len() == k,
                                    forall|p: int|
                                        0 <= p < k ==> codes@[p]@ == code_pieces@[p]@,
                                decreases m - k,
                            {
                                codes.push(chars_to_string(&code_pieces[k]));
                                k += 1;
                            }
                            proof {
                                assert(codes.deep_view() =~~= code_pieces.deep_view());
                            }
                            rules.push(ColorRule { ext: key, codes });
                            proof {
                                assert(spec_rule_of(es[i as int]) matches Some(rr) && rr.0
                                    =~= rules@.last().ext@ && rr.1 =~~= rules@.last(
                                    ).codes.deep_view());
                                assert(spec_rule_of(es[i as int]) == Some((rules@.last().ext@,
                                    rules@.last().codes.deep_view())));
                                assert(Seq::new(rules@.len(), |k2: int| rules@[k2]@)
                                    =~~= Seq::new(old_rules.len(), |k2: int| old_rules[k2]@)
                                    + seq![rules@.last()@]);
                                assert(spec_rules_of(es.skip(i as int)) =~~= seq![rules@.last(
                                    )@] + spec_rules_of(es.skip(i + 1)));
                                assert(spec_rules_of(es) =~~= Seq::new(rules@.len(),
                                    |k2: int| rules@[k2]@) + spec_rules_of(es.skip(i + 1)));
                            }
                        } else {
                            proof {
                                assert(spec_rule_of(es[i as int]) is None);
                            }
                        }
                    } else {
                        proof {
                            if pair@.len() == 2 {
                                assert(pair@[0]@ =~= pair.deep_view()[0]);
                            }
                            assert(spec_rule_of(es[i as int]) is None);
                        }
                    }
                    i += 1;
                }
                proof {
                    assert(es.skip(n as int).len() == 0);
                    assert(spec_rules_of(es.skip(n as int)) =~~= Seq::<(Seq<char>,
                        Seq<Seq<char>>)>::empty());
                    assert(Seq::new(rules@.len(), |k: int| rules@[k]@) =~~= spec_parse_table(
                        s@));
                }
                ColorTable { rules }
            },
        }
    }

    /// Finds the position of the rule a key falls under: the last one whose
    /// extension matches.
    pub fn lookup_idx(&self, key: &String) -> (r: Option<usize>)
        ensures
            match r {
                Some(i) => i < self.rules@.len() && spec_lookup(self@, key@)
                    == Some(self.rules@[i as int].codes.deep_view()) && self.rules@[
                    i as int].ext@ == key@,
                None => spec_lookup(self@, key@) is None,
            },
    {
        let mut i: usize = self.rules.len();
        proof {
            assert(self@.take(self.rules@.len() as int) =~= self@);
        }
        while i > 0
            invariant
                i <= self.rules@.len(),
                spec_lookup(self@, key@) == spec_lookup(self@.take(i as int), key@),
            decreases i,
        {
            proof {
                assert(self@.take(i as int).last() == self@[i - 1]);
                assert(self@.take(i as int).drop_last() =~= self@.take(i - 1));
            }
            if self.rules[i - 1].ext.eq(key) {
                return Some(i - 1);
            }
            i -= 1;
        }
        None
    }
}

// ---------------------------------------------------------------------------
// Applying codes to a style
// ---------------------------------------------------------------------------

/// What one code does to a style: `30` through `37` set the foreground,
/// `40` through `47` the background, `1`, `4`, `5` and `7` the four flags;
/// any other code changes nothing.
pub open spec fn spec_apply_code(on: Style, code: Seq<char>) -> Style {
    if code == "30"@ {
        (Style { fg: Some(30u8), ..on })
    } else if code == "31"@ {
        (Style { fg: Some(31u8), ..on })
    } else if code == "32"@ {
        (Style { fg: Some(32u8), ..on })
    } else if code == "33"@ {
        (Style { fg: Some(33u8), ..on })
    } else if code == "34"@ {
        (Style { fg: Some(34u8), ..on })
    } else if code == "35"@ {
        (Style { fg: Some(35u8), ..on })
    } else if code == "36"@ {
        (Style { fg: Some(36u8), ..on })
    } else if code == "37"@ {
        (Style { fg: Some(37u8), ..on })
    } else if code == "40"@ {
        (Style { bg: Some(40u8), ..on })
    } else if code == "41"@ {
        (Style { bg: Some(41u8), ..on })
    } else if code == "42"@ {
        (Style { bg: Some(42u8), ..on })
    } else if code == "43"@ {
        (Style { bg: Some(43u8), ..on })
    } else if code == "44"@ {
        (Style { bg: Some(44u8), ..on })
    } else if code == "45"@ {
        (Style { bg: Some(45u8), ..on })
    } else if code == "46"@ {
        (Style { bg: Some(46u8), ..on })
    } else if code == "47"@ {
        (Style { bg: Some(47u8), ..on })
    } else if code == "1"@ {
        (Style { bold: true, ..on })
    } else if code == "4"@ {
        (Style { underline: true, ..on })
    } else if code == "5"@ {
        (Style { blink: true, ..on })
    } else if code == "7"@ {
        (Style { reverse: true, ..on })
    } else {
        on
    }
}

/// Applies one code on top of a style.
pub fn compute_on(on: Style, code: &String) -> (r: Style)
    ensures
        r == spec_apply_code(on, code@),
{
    if code.eq(&String::from_str("30")) {
        Style { fg: Some(30u8), ..on }
    } else if code.eq(&String::from_str("31")) {
        Style { fg: Some(31u8), ..on }
    } else if code.eq(&String::from_str("32")) {
        Style { fg: Some(32u8), ..on }
    } else if code.eq(&String::from_str("33")) {
        Style { fg: Some(33u8), ..on }
    } else if code.eq(&String::from_str("34")) {
        Style { fg: Some(34u8), ..on }
    } else if code.eq(&String::from_str("35")) {
        Style { fg: Some(35u8), ..on }
    } else if code.eq(&String::from_str("36")) {
        Style { fg: Some(36u8), ..on }
    } else if code.eq(&String::from_str("37")) {
        Style { fg: Some(37u8), ..on }
    } else if code.eq(&String::from_str("40")) {
        Style { bg: Some(40u8), ..on }
    } else if code.eq(&String::from_str("41")) {
        Style { bg: Some(41u8), ..on }
    } else if code.eq(&String::from_str("42")) {
        Style { bg: Some(42u8), ..on }
    } else if code.eq(&String::from_str("43")) {
        Style { bg: Some(43u8), ..on }
    } else if code.eq(&String::from_str("44")) {
        Style { bg: Some(44u8), ..on }
    } else if code.eq(&String::from_str("45")) {
        Style { bg: Some(45u8), ..on }
    } else if code.eq(&String::from_str("46")) {
        Style { bg: Some(46u8), ..on }
    } else if code.eq(&String::from_str("47")) {
        Style { bg: Some(47u8), ..on }
    } else if code.eq(&String::from_str("1")) {
        Style { bold: true, ..on }
    } else if code.eq(&String::from_str("4")) {
        Style { underline: true, ..on }
    } else if code.eq(&String::from_str("5")) {
        Style { blink: true, ..on }
    } else if code.eq(&String::from_str("7")) {
        Style { reverse: true, ..on }
    } else {
        on
    }
}

/// Applies a run of codes left to right.
pub open spec fn spec_apply_codes(on: Style, codes: Seq<Seq<char>>) -> Style
    decreases codes.len(),
{
    if codes.len() == 0 {
        on
    } else {
        spec_apply_codes(spec_apply_code(on, codes.first()), codes.drop_first())
    }
}

/// The style a file name ends with: unchanged when its key is not in the
/// table; otherwise the table's codes applied in order on top, with bold
/// forced because codes applied.
pub open spec fn spec_compute_color_for(on: Style, key: Seq<char>,
    t: Seq<(Seq<char>, Seq<Seq<char>>)>) -> Style {
    match spec_lookup(t, key) {
        None => on,
        Some(codes) => if codes.len() == 0 {
            on
        } else {
            (Style { bold: true, ..spec_apply_codes(on, codes) })
        },
    }
}

/// Styles a name by its extension key: looks `text` up in the table and
/// applies the codes found there on top of `on`, forcing bold when any code
/// applied; absent a rule, `on` comes back unchanged.
pub fn compute_color_for(on: Style, text: &String, table: &ColorTable) -> (r: Style)
    ensures
        r == spec_compute_color_for(on, text@, table@),
{
    match table.lookup_idx(text) {
        None => on,
        Some(i) => {
            let codes = &table.rules[i].codes;
            let ghost cdv = codes.deep_view();
            let m = codes.len();
            if m == 0 {
                return on;
            }
            let mut acc = on;
            let mut k: usize = 0;
            proof {
                assert(cdv.skip(0) =~~= cdv);
            }
            while k < m
                invariant
                    k <= m,
                    m == codes@.len(),
                    cdv == codes.deep_view(),
                    spec_apply_codes(on, cdv) == spec_apply_codes(acc, cdv.skip(k as int)),
                decreases m - k,
            {
                proof {
                    assert(cdv.skip(k as int).first() =~= codes@[k as int]@);
                    assert(cdv.skip(k as int).drop_first() =~= cdv.skip(k + 1));
                }
                acc = compute_on(acc, &codes[k]);
                k += 1;
            }
            proof {
                assert(cdv.skip(m as int).len() == 0);
            }
            Style { bold: true, ..acc }
        },
    }
}

// ---------------------------------------------------------------------------
// Rendering a styled piece of text
// ---------------------------------------------------------------------------

#[verifier::external_type_specification]
#[verifier::external_body]
pub struct ExColoredString(colored::ColoredString);

/// Relies on colored's From<&str>: wraps text with no styling yet.
#[verifier::external_body]
fn cs_text(text: &str) -> colored::ColoredString {
    colored::ColoredString::from(text)
}

/// Relies on colored's Display through ToString: writes the styled text,
/// plain text coming back unchanged.
#[verifier::external_body]
fn cs_render(s: colored::ColoredString) -> String {
    s.to_string()
}

/// Relies on colored::Colorize::black: sets the foreground color.
#[verifier::external_body]
fn paint_black(s: colored::ColoredString) -> colored::ColoredString {
    colored::Colorize::black(s)
}

/// Relies on colored::Colorize::red: sets the foreground color.
#[verifier::external_body]
fn paint_red(s: colored::ColoredString) -> colored::ColoredString {
    colored::Colorize::red(s)
}

/// Relies on colored::Colorize::green: sets the foreground color.
#[verifier::external_body]
fn paint_green(s: colored::ColoredString) -> colored::ColoredString {
    colored::Colorize::green(s)
}

/// Relies on colored::Colorize::yellow: sets the foreground color.
#[verifier::external_body]
fn paint_yellow(s: colored::ColoredString) -> colored::ColoredString {
    colored::Colorize::yellow(s)
}

/// Relies on colored::Colorize::blue: sets the foreground color.
#[verifier::external_body]
fn paint_blue(s: colored::ColoredString) -> colored::ColoredString {
    colored::Colorize::blue(s)
}

/// Relies on colored::Colorize::magenta: sets the foreground color.
#[verifier::external_body]
fn paint_magenta(s: colored::ColoredString) -> colored::ColoredString {
    colored::Colorize::magenta(s)
}

/// Relies on colored::Colorize::cyan: sets the foreground color.
#[verifier::external_body]
fn paint_cyan(s: colored::ColoredString) -> colored::ColoredString {
    colored::Colorize::cyan(s)
}

/// Relies on colored::Colorize::white: sets the foreground color.
#[verifier::external_body]
fn paint_white(s: colored::ColoredString) -> colored::ColoredString {
    colored::Colorize::white(s)
}

/// Relies on colored::Colorize::bright_cyan: sets the foreground color.
#[verifier::external_body]
fn paint_bright_cyan(s: colored::ColoredString) -> colored::ColoredString {
    colored::Colorize::bright_cyan(s)
}

/// Relies on colored::Colorize::on_black: sets the background color.
#[verifier::external_body]
fn paint_on_black(s: colored::ColoredString) -> colored::ColoredString {
    colored::Colorize::on_black(s)
}

/// Relies on colored::Colorize::on_red: sets the background color.
#[verifier::external_body]
fn paint_on_red(s: colored::ColoredString) -> colored::ColoredString {
    colored::Colorize::on_red(s)
}

/// Relies on colored::Colorize::on_green: sets the background color.
#[verifier::external_body]
fn paint_on_green(s: colored::ColoredString) -> colored::ColoredString {
    colored::Colorize::on_green(s)
}

/// Relies on colored::Colorize::on_yellow: sets the background color.
#[verifier::external_body]
fn paint_on_yellow(s: colored::ColoredString) -> colored::ColoredString {
    colored::Colorize::on_yellow(s)
}

/// Relies on colored::Colorize::on_blue: sets the background color.
#[verifier::external_body]
fn paint_on_blue(s: colored::ColoredString) -> colored::ColoredString {
    colored::Colorize::on_blue(s)
}

/// Relies on colored::Colorize::on_magenta: sets the background color.
#[verifier::external_body]
fn paint_on_magenta(s: colored::ColoredString) -> colored::ColoredString {
    colored::Colorize::on_magenta(s)
}

/// Relies on colored::Colorize::on_cyan: sets the background color.
#[verifier::external_body]
fn paint_on_cyan(s: colored::ColoredString) -> colored::ColoredString {
    colored::Colorize::on_cyan(s)
}

/// Relies on colored::Colorize::on_white: sets the background color.
#[verifier::external_body]
fn paint_on_white(s: colored::ColoredString) -> colored::ColoredString {
    colored::Colorize::on_white(s)
}

/// Relies on colored::Colorize::bold: sets the bold flag.
#[verifier::external_body]
fn paint_bold(s: colored::ColoredString) -> colored::ColoredString {
    colored::Colorize::bold(s)
}

/// Relies on colored::Colorize::underline: sets the underline flag.
#[verifier::external_body]
fn paint_underline(s: colored::ColoredString) -> colored::ColoredString {
    colored::Colorize::underline(s)
}

/// Relies on colored::Colorize::blink: sets the blink flag.
#[verifier::external_body]
fn paint_blink(s: colored::ColoredString) -> colored::ColoredString {
    colored::Colorize::blink(s)
}

/// Relies on colored::Colorize::reversed: sets the reverse-video flag.
#[verifier::external_body]
fn paint_reversed(s: colored::ColoredString) -> colored::ColoredString {
    colored::Colorize::reversed(s)
}

/// Renders `text` with the attributes of `style` through the colored crate.
/// Plain text comes back unchanged, and whatever attributes are written, the
/// text itself always stands whole inside the result: the rendered string is
/// searched for it, and where the crate did not carry it through (it rewrites
/// text that itself holds a reset sequence), the bare text stands in.
pub fn apply_style(text: &str, style: &Style) -> (r: String)
    ensures
        *style == spec_plain() ==> r@ == text@,
        spec_embeds(r@, text@),
{
    if *style == Style::plain() {
        proof {
            assert(text@ =~= Seq::<char>::empty() + text@ + Seq::<char>::empty());
            lemma_embeds_intro(text@, text@, Seq::empty(), Seq::empty());
        }
        return text.to_owned();
    }
    let mut cs = cs_text(text);
    cs = match style.fg {
        None => cs,
        Some(c) => {
            if c == 30 {
                paint_black(cs)
            } else if c == 31 {
                paint_red(cs)
            } else if c == 32 {
                paint_green(cs)
            } else if c == 33 {
                paint_yellow(cs)
            } else if c == 34 {
                paint_blue(cs)
            } else if c == 35 {
                paint_magenta(cs)
            } else if c == 36 {
                paint_cyan(cs)
            } else if c == 37 {
                paint_white(cs)
            } else if c == 96 {
                paint_bright_cyan(cs)
            } else {
                cs
            }
        },
    };
    cs = match style.bg {
        None => cs,
        Some(c) => {
            if c == 40 {
                paint_on_black(cs)
            } else if c == 41 {
                paint_on_red(cs)
            } else if c == 42 {
                paint_on_green(cs)
            } else if c == 43 {
                paint_on_yellow(cs)
            } else if c == 44 {
                paint_on_blue(cs)
            } else if c == 45 {
                paint_on_magenta(cs)
            } else if c == 46 {
                paint_on_cyan(cs)
            } else if c == 47 {
                paint_on_white(cs)
            } else {
                cs
            }
        },
    };
    if style.bold {
        cs = paint_bold(cs);
    }
    if style.underline {
        cs = paint_underline(cs);
    }
    if style.blink {
        cs = paint_blink(cs);
    }
    if style.reverse {
        cs = paint_reversed(cs);
    }
    let styled = cs_render(cs);
    let hay = str_to_chars(styled.as_str());
    let pat = str_to_chars(text);
    match find_sub(&hay, &pat) {
        Some(k) => {
            proof {
                assert(styled@ =~= hay@.subrange(0, k as int) + text@ + hay@.subrange(
                    k as int + pat@.len() as int, hay@.len() as int));
                lemma_embeds_intro(styled@, text@, hay@.subrange(0, k as int), hay@.subrange(
                    k as int + pat@.len() as int, hay@.len() as int));
            }
            styled
        },
        None => {
            proof {
                assert(text@ =~= Seq::<char>::empty() + text@ + Seq::<char>::empty());
                lemma_embeds_intro(text@, text@, Seq::empty(), Seq::empty());
            }
            text.to_owned()
        },
    }
}

} // verus!
