//! Rendering helpers for the text report: explicit colorization, decimal
//! formatting of counts, descriptions of the active policy, and the distinct
//! token and file tallies of the run summary.

use vstd::prelude::*;
use vstd::string::StringExecFns;

use crate::analysis::{status_text, OrderField, TokenAnalysis, UsageLikelihoodStatus};
use crate::config::LanguageRestriction;
use crate::strings::{insert_unique_sorted, sorted_strict, view_set};
use crate::tags::Language;

verus! {

/// A terminal color used by the text report.
#[derive(Clone, Copy, PartialEq, Eq, Structural, Debug)]
pub enum Color {
    Red,
    Yellow,
    Green,
    Cyan,
    White,
}

/// The ANSI code naming a color.
pub open spec fn color_code(c: Color) -> Seq<char> {
    match c {
        Color::Red => "31"@,
        Color::Yellow => "33"@,
        Color::Green => "32"@,
        Color::Cyan => "36"@,
        Color::White => "37"@,
    }
}

/// What colorizing yields: the text wrapped in ANSI escapes when enabled, the
/// text unchanged otherwise. Whether color is enabled is an explicit
/// configuration value, never ambient state.
pub open spec fn colorize_spec(s: Seq<char>, c: Color, enabled: bool) -> Seq<char> {
    if enabled {
        "\u{1b}["@ + color_code(c) + "m"@ + s + "\u{1b}[0m"@
    } else {
        s
    }
}

/// The ANSI code naming a color.
fn color_code_str(c: Color) -> (r: &'static str)
    ensures
        r@ == color_code(c),
{
    match c {
        Color::Red => "31",
        Color::Yellow => "33",
        Color::Green => "32",
        Color::Cyan => "36",
        Color::White => "37",
    }
}

/// Colorizes `s` when `enabled` says so.
pub fn colorize(s: &str, c: Color, enabled: bool) -> (r: String)
    ensures
        r@ == colorize_spec(s@, c, enabled),
{
    if enabled {
        let mut out = "\u{1b}[".to_owned();
        out.append(color_code_str(c));
        out.append("m");
        out.append(s);
        out.append("\u{1b}[0m");
        out
    } else {
        s.to_owned()
    }
}

/// The color the report gives a token of one status: red for high, yellow
/// for medium, green for low.
pub open spec fn status_color_spec(s: UsageLikelihoodStatus) -> Color {
    match s {
        UsageLikelihoodStatus::High => Color::Red,
        UsageLikelihoodStatus::Medium => Color::Yellow,
        UsageLikelihoodStatus::Low => Color::Green,
    }
}

/// The color the report gives a token of one status.
pub fn status_color(s: UsageLikelihoodStatus) -> (r: Color)
    ensures
        r == status_color_spec(s),
{
    match s {
        UsageLikelihoodStatus::High => Color::Red,
        UsageLikelihoodStatus::Medium => Color::Yellow,
        UsageLikelihoodStatus::Low => Color::Green,
    }
}

/// The decimal digit character of a value below ten.
pub open spec fn digit_char(d: nat) -> char {
    if d == 0 {
        '0'
    } else if d == 1 {
        '1'
    } else if d == 2 {
        '2'
    } else if d == 3 {
        '3'
    } else if d == 4 {
        '4'
    } else if d == 5 {
        '5'
    } else if d == 6 {
        '6'
    } else if d == 7 {
        '7'
    } else if d == 8 {
        '8'
    } else {
        '9'
    }
}

/// The decimal rendering of a number, most significant digit first.
pub open spec fn dec_digits(n: nat) -> Seq<char>
    decreases n,
{
    if n < 10 {
        seq![digit_char(n)]
    } else {
        dec_digits(n / 10).push(digit_char(n % 10))
    }
}

/// The digit character of a value below ten.
fn digit_str(d: usize) -> (r: &'static str)
    requires
        d < 10,
    ensures
        r@ == seq![digit_char(d as nat)],
{
    let r: &'static str = if d == 0 {
        "0"
    } else if d == 1 {
        "1"
    } else if d == 2 {
        "2"
    } else if d == 3 {
        "3"
    } else if d == 4 {
        "4"
    } else if d == 5 {
        "5"
    } else if d == 6 {
        "6"
    } else if d == 7 {
        "7"
    } else if d == 8 {
        "8"
    } else {
        "9"
    };
    proof {
        reveal_strlit("0");
        reveal_strlit("1");
        reveal_strlit("2");
        reveal_strlit("3");
        reveal_strlit("4");
        reveal_strlit("5");
        reveal_strlit("6");
        reveal_strlit("7");
        reveal_strlit("8");
        reveal_strlit("9");
        assert(r@ =~= seq![digit_char(d as nat)]);
    }
    r
}

/// Renders a count in decimal.
pub fn usize_to_string(n: usize) -> (r: String)
    ensures
        r@ == dec_digits(n as nat),
    decreases n,
{
    if n < 10 {
        digit_str(n).to_owned()
    } else {
        let mut s = usize_to_string(n / 10);
        s.append(digit_str(n % 10));
        proof {
            assert(s@ =~= dec_digits((n / 10) as nat).push(digit_char((n % 10) as nat)));
        }
        s
    }
}

/// What the summary shows for a tally: a zero is green, anything else red.
pub open spec fn colorize_total_spec(amount: nat, enabled: bool) -> Seq<char> {
    if amount == 0 {
        colorize_spec(dec_digits(0), Color::Green, enabled)
    } else {
        colorize_spec(dec_digits(amount), Color::Red, enabled)
    }
}

/// Renders a summary tally: green when zero, red otherwise.
pub fn colorize_total(amount: usize, color_enabled: bool) -> (r: String)
    ensures
        r@ == colorize_total_spec(amount as nat, color_enabled),
{
    let digits = usize_to_string(amount);
    if amount == 0 {
        colorize(digits.as_str(), Color::Green, color_enabled)
    } else {
        colorize(digits.as_str(), Color::Red, color_enabled)
    }
}

/// The lower-case name of a sort field.
pub open spec fn order_field_text(f: OrderField) -> Seq<char> {
    match f {
        OrderField::Appearance => "appearance"@,
        OrderField::TokenName => "token"@,
        OrderField::Likelihood => "likelihood"@,
    }
}

impl OrderField {
    /// The lower-case name of the sort field.
    pub fn text(&self) -> (r: String)
        ensures
            r@ == order_field_text(*self),
    {
        match self {
            OrderField::Appearance => "appearance".to_owned(),
            OrderField::TokenName => "token".to_owned(),
            OrderField::Likelihood => "likelihood".to_owned(),
        }
    }
}

/// The file extension naming a language.
pub open spec fn language_extension(l: Language) -> Seq<char> {
    match l {
        Language::Elixir => "ex"@,
        Language::Elm => "elm"@,
        Language::Haskell => "hs"@,
        Language::JavaScript => "js"@,
        Language::Json => "json"@,
        Language::Markdown => "md"@,
        Language::Python => "py"@,
        Language::Ruby => "rb"@,
        Language::Rust => "rs"@,
        Language::TypeScript => "ts"@,
    }
}

impl Language {
    /// The file extension naming the language.
    pub fn extension(&self) -> (r: String)
        ensures
            r@ == language_extension(*self),
    {
        match self {
            Language::Elixir => "ex".to_owned(),
            Language::Elm => "elm".to_owned(),
            Language::Haskell => "hs".to_owned(),
            Language::JavaScript => "js".to_owned(),
            Language::Json => "json".to_owned(),
            Language::Markdown => "md".to_owned(),
            Language::Python => "py".to_owned(),
            Language::Ruby => "rb".to_owned(),
            Language::Rust => "rs".to_owned(),
            Language::TypeScript => "ts".to_owned(),
        }
    }
}

/// The character views of a sequence of strings, in order.
pub open spec fn views_of(v: Seq<String>) -> Seq<Seq<char>> {
    v.map_values(|s: String| s@)
}

/// One bullet line per path, each colorized yellow when color is enabled.
pub open spec fn bullet_lines(paths: Seq<Seq<char>>, color: bool) -> Seq<Seq<char>> {
    Seq::new(paths.len(), |i: int| "   * "@ + colorize_spec(paths[i], Color::Yellow, color))
}

/// The text-report block of one classified result: the token colored by its
/// status, the reason, the definition paths with their count, and — only
/// when any exist — the occurrence paths with their count.
pub open spec fn result_block_lines_spec(
    token: Seq<char>,
    reason: Seq<char>,
    status: UsageLikelihoodStatus,
    defined: Seq<Seq<char>>,
    occurred: Seq<Seq<char>>,
    color: bool,
) -> Seq<Seq<char>> {
    let head = seq![
        colorize_spec(token, status_color_spec(status), color),
        "   Reason: "@ + colorize_spec(reason, Color::Cyan, color),
        "   Defined in: ("@ + colorize_spec(dec_digits(defined.len()), Color::Yellow, color)
            + ")"@,
    ] + bullet_lines(defined, color);
    if occurred.len() > 0 {
        head + seq![
            "   Found in: ("@ + colorize_spec(dec_digits(occurred.len()), Color::Yellow, color)
                + ")"@,
        ] + bullet_lines(occurred, color)
    } else {
        head
    }
}

/// Appends one bullet line per path to `out`.
fn push_bullet_lines(out: &mut Vec<String>, paths: &Vec<String>, color: bool)
    ensures
        final(out)@.len() == old(out)@.len() + paths@.len(),
        forall|i: int| 0 <= i < old(out)@.len() ==> final(out)@[i] == old(out)@[i],
        forall|i: int|
            0 <= i < paths@.len() ==> (#[trigger] final(out)@[old(out)@.len() + i])@
                == bullet_lines(views_of(paths@), color)[i],
{
    let mut k: usize = 0;
    let ghost base = out@;
    while k < paths.len()
        invariant
            k <= paths@.len(),
            out@.len() == base.len() + k,
            forall|i: int| 0 <= i < base.len() ==> out@[i] == base[i],
            forall|i: int|
                0 <= i < k ==> (#[trigger] out@[base.len() + i])@ == bullet_lines(
                    views_of(paths@),
                    color,
                )[i],
        decreases paths@.len() - k,
    {
        let mut line = "   * ".to_owned();
        let colored = colorize(paths[k].as_str(), Color::Yellow, color);
        line.append(colored.as_str());
        proof {
            assert(views_of(paths@)[k as int] == paths@[k as int]@);
            assert(line@ == bullet_lines(views_of(paths@), color)[k as int]);
        }
        out.push(line);
        k = k + 1;
    }
}

/// A count wrapped in parentheses and colorized yellow, as the report's
/// path headings show it.
fn counted_heading(prefix: &str, count: usize, color: bool) -> (r: String)
    ensures
        r@ == prefix@ + colorize_spec(dec_digits(count as nat), Color::Yellow, color) + ")"@,
{
    let mut line = prefix.to_owned();
    let digits = usize_to_string(count);
    let colored = colorize(digits.as_str(), Color::Yellow, color);
    line.append(colored.as_str());
    line.append(")");
    line
}

/// Renders the text-report block of one classified result, one line per
/// element, from its token, reason, status, and path lists.
pub fn result_block_lines(
    token: &String,
    reason: &String,
    status: UsageLikelihoodStatus,
    defined: &Vec<String>,
    occurred: &Vec<String>,
    color: bool,
) -> (r: Vec<String>)
    ensures
        r@.len() == result_block_lines_spec(
            token@,
            reason@,
            status,
            views_of(defined@),
            views_of(occurred@),
            color,
        ).len(),
        forall|i: int|
            0 <= i < r@.len() ==> (#[trigger] r@[i])@ == result_block_lines_spec(
                token@,
                reason@,
                status,
                views_of(defined@),
                views_of(occurred@),
                color,
            )[i],
{
    let ghost spec_lines = result_block_lines_spec(
        token@,
        reason@,
        status,
        views_of(defined@),
        views_of(occurred@),
        color,
    );
    let mut r: Vec<String> = Vec::new();
    let first = colorize(token.as_str(), status_color(status), color);
    r.push(first);
    let mut reason_line = "   Reason: ".to_owned();
    let colored_reason = colorize(reason.as_str(), Color::Cyan, color);
    reason_line.append(colored_reason.as_str());
    r.push(reason_line);
    let defined_heading = counted_heading("   Defined in: (", defined.len(), color);
    r.push(defined_heading);
    proof {
        assert(views_of(defined@).len() == defined@.len());
        assert forall|i: int| 0 <= i < 3 implies r@[i]@ == spec_lines[i] by {}
    }
    push_bullet_lines(&mut r, defined, color);
    let ghost head = seq![r@[0]@, r@[1]@, r@[2]@] + bullet_lines(views_of(defined@), color);
    let ghost r1 = r@;
    proof {
        assert forall|i: int| 0 <= i < r1.len() implies (#[trigger] r1[i])@ == head[i] by {
            if i >= 3 {
                assert(r1[3 + (i - 3)]@ == bullet_lines(views_of(defined@), color)[i - 3]);
            }
        }
        assert(r1.len() == head.len());
    }
    if occurred.len() > 0 {
        let occurred_heading = counted_heading("   Found in: (", occurred.len(), color);
        r.push(occurred_heading);
        let ghost r2 = r@;
        proof {
            assert(views_of(occurred@).len() == occurred@.len());
            assert(spec_lines =~= head + seq![r2[r1.len() as int]@] + bullet_lines(
                views_of(occurred@),
                color,
            ));
        }
        push_bullet_lines(&mut r, occurred, color);
        proof {
            assert forall|i: int| 0 <= i < r@.len() implies (#[trigger] r@[i])@
                == spec_lines[i] by {
                if i < r1.len() {
                    assert(r@[i] == r2[i] && r2[i] == r1[i]);
                } else if i == r1.len() {
                    assert(r@[i] == r2[i]);
                } else {
                    assert(r@[r2.len() + (i - r2.len())]@ == bullet_lines(
                        views_of(occurred@),
                        color,
                    )[i - r2.len()]);
                }
            }
        }
    } else {
        proof {
            assert(spec_lines =~= head);
        }
    }
    r
}

/// The elements joined by a comma and a space.
pub open spec fn join_spec(s: Seq<Seq<char>>) -> Seq<char>
    decreases s.len(),
{
    if s.len() == 0 {
        Seq::empty()
    } else if s.len() == 1 {
        s[0]
    } else {
        join_spec(s.drop_last()) + ", "@ + s.last()
    }
}

/// Joins strings with a comma and a space.
pub fn join_comma(v: &Vec<String>) -> (r: String)
    ensures
        r@ == join_spec(views_of(v@)),
{
    let ghost views = views_of(v@);
    if v.len() == 0 {
        let r = String::new();
        proof {
            assert(r@ =~= join_spec(views));
        }
        return r;
    }
    let mut out = v[0].clone();
    let mut k: usize = 1;
    proof {
        assert(views.subrange(0, 1) =~= seq![views[0]]);
        assert(out@ == join_spec(views.subrange(0, 1)));
    }
    while k < v.len()
        invariant
            1 <= k <= views.len(),
            views == views_of(v@),
            out@ == join_spec(views.subrange(0, k as int)),
        decreases views.len() - k,
    {
        out.append(", ");
        out.append(v[k].as_str());
        proof {
            let b = views.subrange(0, k + 1);
            assert(b.drop_last() =~= views.subrange(0, k as int));
            assert(b.last() == views[k as int]);
            assert(views[k as int] == v@[k as int]@);
        }
        k = k + 1;
    }
    proof {
        assert(views.subrange(0, views.len() as int) =~= views);
    }
    out
}

/// The extensions of the given languages, in order.
pub fn extensions_of(langs: &Vec<Language>) -> (r: Vec<String>)
    ensures
        views_of(r@) == langs@.map_values(|l: Language| language_extension(l)),
{
    let mut r: Vec<String> = Vec::new();
    let mut k: usize = 0;
    while k < langs.len()
        invariant
            k <= langs@.len(),
            r@.len() == k,
            forall|i: int| 0 <= i < k ==> (#[trigger] r@[i])@ == language_extension(langs@[i]),
        decreases langs@.len() - k,
    {
        let e = langs[k].extension();
        r.push(e);
        k = k + 1;
    }
    proof {
        assert(views_of(r@) =~= langs@.map_values(|l: Language| language_extension(l)));
    }
    r
}

/// How the summary describes the active language restriction.
pub open spec fn restriction_text(r: LanguageRestriction) -> Seq<char> {
    match r {
        LanguageRestriction::All => "all languages"@,
        LanguageRestriction::Only(langs) => "only "@ + join_spec(
            langs@.map_values(|l: Language| language_extension(l)),
        ),
        LanguageRestriction::Except(langs) => "except "@ + join_spec(
            langs@.map_values(|l: Language| language_extension(l)),
        ),
    }
}

/// Describes the active language restriction.
pub fn describe_restriction(r: &LanguageRestriction) -> (out: String)
    ensures
        out@ == restriction_text(*r),
{
    match r {
        LanguageRestriction::All => "all languages".to_owned(),
        LanguageRestriction::Only(langs) => {
            let mut out = "only ".to_owned();
            let exts = extensions_of(langs);
            let joined = join_comma(&exts);
            out.append(joined.as_str());
            out
        },
        LanguageRestriction::Except(langs) => {
            let mut out = "except ".to_owned();
            let exts = extensions_of(langs);
            let joined = join_comma(&exts);
            out.append(joined.as_str());
            out
        },
    }
}

/// The lower-case names of the given statuses, in order.
pub fn status_names(statuses: &Vec<UsageLikelihoodStatus>) -> (r: Vec<String>)
    ensures
        views_of(r@) == statuses@.map_values(|s: UsageLikelihoodStatus| status_text(s)),
{
    let mut r: Vec<String> = Vec::new();
    let mut k: usize = 0;
    while k < statuses.len()
        invariant
            k <= statuses@.len(),
            r@.len() == k,
            forall|i: int| 0 <= i < k ==> (#[trigger] r@[i])@ == status_text(statuses@[i]),
        decreases statuses@.len() - k,
    {
        let n = statuses[k].text();
        r.push(n);
        k = k + 1;
    }
    proof {
        assert(views_of(r@) =~= statuses@.map_values(|s: UsageLikelihoodStatus| status_text(s)));
    }
    r
}

/// One labelled, cyan-colorized summary line.
fn labelled_line(label: &str, value: &str, color: bool) -> (r: String)
    ensures
        r@ == label@ + colorize_spec(value@, Color::Cyan, color),
{
    let mut out = label.to_owned();
    let colored = colorize(value, Color::Cyan, color);
    out.append(colored.as_str());
    out
}

/// The run summary: the heading, both tallies, and the active restriction,
/// sort order, likelihood filter, and profile name.
pub open spec fn summary_lines_spec(
    token_count: nat,
    file_count: nat,
    restriction: LanguageRestriction,
    sort_order: OrderField,
    statuses: Seq<UsageLikelihoodStatus>,
    profile_name: Seq<char>,
    color: bool,
) -> Seq<Seq<char>> {
    seq![
        colorize_spec("== UNUSED SUMMARY =="@, Color::White, color),
        "   Tokens found: "@ + colorize_total_spec(token_count, color),
        "   Files found: "@ + colorize_total_spec(file_count, color),
        "   Applied language filters: "@ + colorize_spec(
            restriction_text(restriction),
            Color::Cyan,
            color,
        ),
        "   Sort order: "@ + colorize_spec(order_field_text(sort_order), Color::Cyan, color),
        "   Usage likelihood: "@ + colorize_spec(
            join_spec(statuses.map_values(|s: UsageLikelihoodStatus| status_text(s))),
            Color::Cyan,
            color,
        ),
        "   Configuration setting: "@ + colorize_spec(profile_name, Color::Cyan, color),
    ]
}

/// Renders the run summary, one line per element.
pub fn summary_lines(
    token_count: usize,
    file_count: usize,
    restriction: &LanguageRestriction,
    sort_order: OrderField,
    statuses: &Vec<UsageLikelihoodStatus>,
    profile_name: &String,
    color: bool,
) -> (r: Vec<String>)
    ensures
        r@.len() == 7,
        forall|i: int|
            0 <= i < 7 ==> (#[trigger] r@[i])@ == summary_lines_spec(
                token_count as nat,
                file_count as nat,
                *restriction,
                sort_order,
                statuses@,
                profile_name@,
                color,
            )[i],
{
    let mut r: Vec<String> = Vec::new();
    r.push(colorize("== UNUSED SUMMARY ==", Color::White, color));
    let mut tokens_line = "   Tokens found: ".to_owned();
    let tokens_total = colorize_total(token_count, color);
    tokens_line.append(tokens_total.as_str());
    r.push(tokens_line);
    let mut files_line = "   Files found: ".to_owned();
    let files_total = colorize_total(file_count, color);
    files_line.append(files_total.as_str());
    r.push(files_line);
    let described = describe_restriction(restriction);
    r.push(labelled_line("   Applied language filters: ", described.as_str(), color));
    let order_name = sort_order.text();
    r.push(labelled_line("   Sort order: ", order_name.as_str(), color));
    let names = status_names(statuses);
    let joined = join_comma(&names);
    r.push(labelled_line("   Usage likelihood: ", joined.as_str(), color));
    r.push(labelled_line("   Configuration setting: ", profile_name.as_str(), color));
    r
}

/// The set of token spellings among classified results.
pub open spec fn result_spelling_set(analyses: Seq<TokenAnalysis>) -> Set<Seq<char>> {
    Set::new(
        |x: Seq<char>|
            exists|i: int| 0 <= i < analyses.len() && analyses[i].result.token.token@ == x,
    )
}

/// The set of file paths holding occurrences, across all classified results.
pub open spec fn result_occurrence_path_set(analyses: Seq<TokenAnalysis>) -> Set<Seq<char>> {
    Set::new(
        |x: Seq<char>|
            exists|i: int, k: int|
                0 <= i < analyses.len() && 0 <= k < analyses[i].result.occurrences@.len()
                    && analyses[i].result.occurrences@[k].0@ == x,
    )
}

/// The distinct token spellings of the surviving results, in increasing
/// order; the summary's token tally is their number.
pub fn distinct_token_spellings(analyses: &Vec<TokenAnalysis>) -> (r: Vec<String>)
    ensures
        sorted_strict(r@),
        view_set(r@) == result_spelling_set(analyses@),
{
    let ghost total = analyses@;
    let mut r: Vec<String> = Vec::new();
    let mut j: usize = 0;
    proof {
        assert(view_set(r@) =~= result_spelling_set(total.subrange(0, 0)));
    }
    while j < analyses.len()
        invariant
            j <= total.len(),
            total == analyses@,
            sorted_strict(r@),
            view_set(r@) == result_spelling_set(total.subrange(0, j as int)),
        decreases total.len() - j,
    {
        let s = analyses[j].result.token.token.clone();
        proof {
            let a = total.subrange(0, j as int);
            let b = total.subrange(0, j + 1);
            assert(result_spelling_set(b) =~= result_spelling_set(a).insert(s@)) by {
                assert forall|x: Seq<char>| result_spelling_set(b).contains(
                    x,
                ) implies result_spelling_set(a).insert(s@).contains(x) by {
                    let k = choose|k: int|
                        0 <= k < b.len() && b[k].result.token.token@ == x;
                    if k < j {
                        assert(a[k] == b[k]);
                        assert(result_spelling_set(a).contains(x));
                    } else {
                        assert(b[k] == total[j as int]);
                    }
                }
                assert forall|x: Seq<char>| result_spelling_set(a).insert(s@).contains(
                    x,
                ) implies result_spelling_set(b).contains(x) by {
                    if x == s@ {
                        assert(b[j as int] == total[j as int]);
                        assert(b[j as int].result.token.token@ == x);
                    } else {
                        let k = choose|k: int|
                            0 <= k < a.len() && a[k].result.token.token@ == x;
                        assert(b[k] == a[k]);
                        assert(b[k].result.token.token@ == x);
                    }
                }
            }
        }
        insert_unique_sorted(&mut r, s);
        j = j + 1;
    }
    proof {
        assert(total.subrange(0, total.len() as int) =~= total);
    }
    r
}

/// Before any occurrence bucket of result `j` is taken, the gathered paths
/// are those of the first `j` results.
proof fn lemma_prefix_paths_start(analyses: Seq<TokenAnalysis>, j: int)
    requires
        0 <= j <= analyses.len(),
    ensures
        result_occurrence_path_set(analyses.subrange(0, j)) == prefix_paths(analyses, j, 0),
{
    let b = analyses.subrange(0, j);
    assert(result_occurrence_path_set(b) =~= prefix_paths(analyses, j, 0)) by {
        assert forall|x: Seq<char>| result_occurrence_path_set(b).contains(x) implies prefix_paths(
            analyses,
            j,
            0,
        ).contains(x) by {
            let (i2, k2) = choose|i2: int, k2: int|
                0 <= i2 < b.len() && 0 <= k2 < b[i2].result.occurrences@.len()
                    && b[i2].result.occurrences@[k2].0@ == x;
            assert(b[i2] == analyses[i2]);
            assert(analyses[i2].result.occurrences@[k2].0@ == x);
        }
        assert forall|x: Seq<char>| prefix_paths(analyses, j, 0).contains(
            x,
        ) implies result_occurrence_path_set(b).contains(x) by {
            let (i2, k2) = choose|i2: int, k2: int|
                0 <= i2 < j && 0 <= k2 < analyses[i2].result.occurrences@.len()
                    && analyses[i2].result.occurrences@[k2].0@ == x;
            assert(b[i2] == analyses[i2]);
            assert(b[i2].result.occurrences@[k2].0@ == x);
        }
    }
}

/// Taking every occurrence bucket of result `j` reaches the paths of the
/// first `j + 1` results.
proof fn lemma_prefix_paths_finish(analyses: Seq<TokenAnalysis>, j: int)
    requires
        0 <= j < analyses.len(),
    ensures
        prefix_paths(analyses, j, analyses[j].result.occurrences@.len() as int)
            == result_occurrence_path_set(analyses.subrange(0, j + 1)),
{
    let n = analyses[j].result.occurrences@.len() as int;
    let b = analyses.subrange(0, j + 1);
    assert(prefix_paths(analyses, j, n) =~= result_occurrence_path_set(b)) by {
        assert forall|x: Seq<char>| prefix_paths(analyses, j, n).contains(
            x,
        ) implies result_occurrence_path_set(b).contains(x) by {
            if exists|i2: int, k2: int|
                0 <= i2 < j && 0 <= k2 < analyses[i2].result.occurrences@.len()
                    && analyses[i2].result.occurrences@[k2].0@ == x {
                let (i2, k2) = choose|i2: int, k2: int|
                    0 <= i2 < j && 0 <= k2 < analyses[i2].result.occurrences@.len()
                        && analyses[i2].result.occurrences@[k2].0@ == x;
                assert(b[i2] == analyses[i2]);
                assert(b[i2].result.occurrences@[k2].0@ == x);
            } else {
                let k2 = choose|k2: int|
                    0 <= k2 < n && k2 < analyses[j].result.occurrences@.len()
                        && analyses[j].result.occurrences@[k2].0@ == x;
                assert(b[j] == analyses[j]);
                assert(b[j].result.occurrences@[k2].0@ == x);
            }
        }
        assert forall|x: Seq<char>| result_occurrence_path_set(b).contains(x) implies prefix_paths(
            analyses,
            j,
            n,
        ).contains(x) by {
            let (i2, k2) = choose|i2: int, k2: int|
                0 <= i2 < b.len() && 0 <= k2 < b[i2].result.occurrences@.len()
                    && b[i2].result.occurrences@[k2].0@ == x;
            assert(b[i2] == analyses[i2]);
            assert(analyses[i2].result.occurrences@[k2].0@ == x);
        }
    }
}

/// The distinct file paths in which occurrences were found, across the
/// surviving results, in increasing order; the summary's file tally is their
/// number.
pub fn distinct_occurrence_paths(analyses: &Vec<TokenAnalysis>) -> (r: Vec<String>)
    ensures
        sorted_strict(r@),
        view_set(r@) == result_occurrence_path_set(analyses@),
{
    let ghost total = analyses@;
    let mut r: Vec<String> = Vec::new();
    let mut j: usize = 0;
    proof {
        assert(view_set(r@) =~= result_occurrence_path_set(total.subrange(0, 0)));
    }
    while j < analyses.len()
        invariant
            j <= total.len(),
            total == analyses@,
            sorted_strict(r@),
            view_set(r@) == result_occurrence_path_set(total.subrange(0, j as int)),
        decreases total.len() - j,
    {
        let ghost occ = total[j as int].result.occurrences@;
        let mut k: usize = 0;
        proof {
            lemma_prefix_paths_start(total, j as int);
        }
        while k < analyses[j].result.occurrences.len()
            invariant
                j < total.len(),
                k <= occ.len(),
                total == analyses@,
                occ == total[j as int].result.occurrences@,
                sorted_strict(r@),
                view_set(r@) == prefix_paths(total, j as int, k as int),
            decreases occ.len() - k,
        {
            let p = analyses[j].result.occurrences[k].0.clone();
            proof {
                assert(prefix_paths(total, j as int, k + 1) =~= prefix_paths(
                    total,
                    j as int,
                    k as int,
                ).insert(p@)) by {
                    assert forall|x: Seq<char>| prefix_paths(total, j as int, k + 1).contains(
                        x,
                    ) implies prefix_paths(total, j as int, k as int).insert(p@).contains(x) by {
                    }
                    assert forall|x: Seq<char>| prefix_paths(total, j as int, k as int).insert(
                        p@,
                    ).contains(x) implies prefix_paths(total, j as int, k + 1).contains(x) by {
                        if x == p@ {
                            assert(occ[k as int].0@ == x);
                        }
                    }
                }
            }
            insert_unique_sorted(&mut r, p);
            k = k + 1;
        }
        proof {
            lemma_prefix_paths_finish(total, j as int);
        }
        j = j + 1;
    }
    proof {
        assert(total.subrange(0, total.len() as int) =~= total);
    }
    r
}

/// The occurrence paths of the first `j` results together with the first `k`
/// occurrence buckets of result `j`.
pub open spec fn prefix_paths(analyses: Seq<TokenAnalysis>, j: int, k: int) -> Set<Seq<char>> {
    Set::new(
        |x: Seq<char>|
            (exists|i2: int, k2: int|
                0 <= i2 < j && 0 <= k2 < analyses[i2].result.occurrences@.len()
                    && analyses[i2].result.occurrences@[k2].0@ == x) || (exists|k2: int|
                0 <= k2 < k && k2 < analyses[j].result.occurrences@.len()
                    && analyses[j].result.occurrences@[k2].0@ == x),
    )
}

} // verus!
