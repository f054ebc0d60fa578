//! Markdown reports of per-instruction compute-unit consumption, built from
//! profiling entries or from the log lines of the profiling runtime.
use vstd::prelude::*;
use crate::mollusk::{display_name_of, location_fits_check, find_override, location_fits, location_line, location_line_exec, names_unique};
pub use crate::mollusk::snake_to_title_case;
use crate::text::{
    byte_len, chars_of, concat_map, contains, dec, find, find_in, first_word, first_word_vec, join,
    join_strings, lemma_concat_map_step, lemma_find_from_matches,
    lemma_take_all, lines, lines_vec, pad_left, pad_right, parse_or_zero, parse_uint_vec,
    push_dec, push_pad_left, push_pad_right, push_repeat, push_thousands, repeat_char,
    split, split_vec, starts_with, starts_with_vec, string_of, string_views, sub_vec, thousands,
    str_eq, trim, trim_start, trim_start_vec, trim_vec, views, str_lt, str_less, lemma_str_lt_total,
    lemma_str_lt_transitive, replace_char, lower, to_lowercase,
    replace_char_str, lemma_concat_map_push,
};

verus! {

/// A single profiled function's result.
#[derive(Debug, Clone)]
pub struct ProfileEntry {
    pub func_name: String,
    pub file_location: String,
    pub total_cu: u64,
    pub net_cu: u64,
}

/// A custom table rendered inside an instruction's section, after the CU
/// table. The title renders as bold text (not a heading), so it produces no
/// anchor or table-of-contents entry.
#[derive(Debug, Clone)]
pub struct SectionTable {
    pub title: String,
    pub headers: Vec<String>,
    pub rows: Vec<Vec<String>>,
}

/// Configuration for markdown report generation.
pub struct ReadmeConfig {
    pub title: String,
    pub description: String,
    /// Base URL for GitHub source links (e.g. "https://github.com/org/repo/blob/main/").
    /// Empty string disables source links.
    pub github_base_url: String,
    pub output_path: String,
    /// Optional command shown in the report for regeneration (e.g. "just bench").
    pub regenerate_command: Option<String>,
    /// Display names of instruction categories, as `(name, display_name)`
    /// pairs. Falls back to snake_case -> Title Case.
    pub display_name_overrides: Vec<(String, String)>,
    /// Fixed column width for function names in tables. None = auto-size to longest name.
    pub column_width: Option<usize>,
    /// Show one function's CU in the table of contents (e.g. Some("process_instruction")).
    /// None = no CU column in TOC.
    pub toc_summary_function: Option<String>,
}

impl Default for ReadmeConfig {
    fn default() -> (r: Self)
        ensures
            r.title@.len() == 0,
            r.description@.len() == 0,
            r.github_base_url@.len() == 0,
            r.output_path@ == "CU_BENCHMARK.md"@,
            r.regenerate_command is None,
            r.display_name_overrides@.len() == 0,
            r.column_width is None,
            r.toc_summary_function is None,
    {
        ReadmeConfig {
            title: String::new(),
            description: String::new(),
            github_base_url: String::new(),
            output_path: String::from_str("CU_BENCHMARK.md"),
            regenerate_command: None,
            display_name_overrides: Vec::new(),
            column_width: None,
            toc_summary_function: None,
        }
    }
}

// ---------------------------------------------------------------------------
// Numbers and links
// ---------------------------------------------------------------------------

/// Formats `n` with a comma between groups of three digits, e.g. `94,804`.
pub fn format_thousands(n: u64) -> (r: String)
    ensures
        r@ == thousands(n as nat),
{
    let mut r = String::new();
    push_thousands(&mut r, n);
    assert(r@ =~= thousands(n as nat));
    r
}

/// The function name in code style, linked to its source line when the
/// location has a `:line` part.
pub open spec fn code_link(func_name: Seq<char>, fl: Seq<char>, base: Seq<char>) -> Seq<char> {
    if split(fl, ':').len() >= 2 {
        "[`"@ + func_name + "`]("@ + base + split(fl, ':')[0] + "#L"@ + dec(location_line(fl) + 1)
            + ")"@
    } else {
        "`"@ + func_name + "`"@
    }
}

pub fn make_github_link(func_name: &str, file_location: &str, github_base_url: &str) -> (r: String)
    requires
        location_fits(file_location@),
    ensures
        r@ == code_link(func_name@, file_location@, github_base_url@),
{
    let v = chars_of(file_location);
    let parts = split_vec(&v, ':');
    proof {
        assert(parts@.len() == split(v@, ':').len());
        if v@.len() == 0 {
            assert(split(v@, ':') =~= seq![v@]) by {
                assert(find(v@, seq![':']) is None);
            }
        }
    }
    if parts.len() >= 2 {
        proof {
            assert(parts@[0]@ == split(v@, ':')[0]);
            assert(parts@[1]@ == split(v@, ':')[1]);
        }
        let line_num = location_line_exec(&parts) + 1;
        let mut r = String::from_str("[`");
        r.append(func_name);
        r.append("`](");
        r.append(github_base_url);
        let pl = parts[0].len();
        let path = string_of(&parts[0], 0, pl);
        r.append(path.as_str());
        r.append("#L");
        push_dec(&mut r, line_num as u64);
        r.append(")");
        r
    } else {
        let mut r = String::from_str("`");
        r.append(func_name);
        r.append("`");
        r
    }
}

// ---------------------------------------------------------------------------
// Section tables
// ---------------------------------------------------------------------------

/// The widest cell of column `i` among the rows that have one, in bytes.
pub open spec fn cell_max(rows: Seq<Vec<String>>, i: int) -> usize
    decreases rows.len(),
{
    if rows.len() == 0 {
        0
    } else {
        let m = cell_max(rows.drop_last(), i);
        let c = if 0 <= i < rows.last()@.len() {
            byte_len(rows.last()@[i]@)
        } else {
            0
        };
        if c > m {
            c
        } else {
            m
        }
    }
}

/// The width of column `i`: its widest cell, header included, in bytes.
pub open spec fn column_width(t: SectionTable, i: int) -> usize {
    let h = byte_len(t.headers@[i]@);
    let m = cell_max(t.rows@, i);
    if h > m {
        h
    } else {
        m
    }
}

/// A table line: the cells between `| ` and ` |`, separated by ` | `.
pub open spec fn framed(cells: Seq<Seq<char>>) -> Seq<char> {
    "| "@ + join(cells, " | "@) + " |"@ + "\n"@
}

pub open spec fn header_cells(t: SectionTable) -> Seq<Seq<char>> {
    Seq::new(t.headers@.len(), |i: int| pad_right(t.headers@[i]@, column_width(t, i) as nat))
}

pub open spec fn separator_cells(t: SectionTable) -> Seq<Seq<char>> {
    Seq::new(t.headers@.len(), |i: int| repeat_char('-', column_width(t, i) as nat))
}

/// The cells of a row, right-aligned; a missing cell is empty and cells
/// beyond the headers are not shown.
pub open spec fn row_cells(t: SectionTable, row: Seq<String>) -> Seq<Seq<char>> {
    Seq::new(
        t.headers@.len(),
        |i: int|
            pad_left(
                if i < row.len() {
                    row[i]@
                } else {
                    Seq::empty()
                },
                column_width(t, i) as nat,
            ),
    )
}

pub open spec fn row_line_fn(t: SectionTable) -> spec_fn(int, Vec<String>) -> Seq<char> {
    |k: int, row: Vec<String>| framed(row_cells(t, row@))
}

/// A section table: bold title (when there is one), header row, separator,
/// then one line per row, and a blank line.
pub open spec fn section_table_text(t: SectionTable) -> Seq<char> {
    (if t.title@.len() == 0 {
        Seq::empty()
    } else {
        "**"@ + t.title@ + "**"@ + "\n"@
    }) + framed(header_cells(t)) + framed(separator_cells(t)) + concat_map(t.rows@, row_line_fn(t))
        + "\n"@
}

fn cell_max_exec(rows: &Vec<Vec<String>>, i: usize) -> (r: usize)
    ensures
        r == cell_max(rows@, i as int),
{
    let mut m: usize = 0;
    let mut k: usize = 0;
    assert(rows@.take(0) =~= Seq::<Vec<String>>::empty());
    while k < rows.len()
        invariant
            k <= rows@.len(),
            m == cell_max(rows@.take(k as int), i as int),
        decreases rows@.len() - k,
    {
        assert(rows@.take(k + 1).drop_last() =~= rows@.take(k as int));
        let row = &rows[k];
        let c = if i < row.len() {
            row[i].as_str().len()
        } else {
            0
        };
        if c > m {
            m = c;
        }
        k = k + 1;
    }
    proof {
        lemma_take_all(rows@);
    }
    m
}

fn column_widths(t: &SectionTable) -> (r: Vec<usize>)
    ensures
        r@.len() == t.headers@.len(),
        forall|i: int| 0 <= i < r@.len() ==> r@[i] == column_width(*t, i),
{
    let mut widths: Vec<usize> = Vec::new();
    let mut i: usize = 0;
    while i < t.headers.len()
        invariant
            i <= t.headers@.len(),
            widths@.len() == i,
            forall|k: int| 0 <= k < i ==> widths@[k] == column_width(*t, k),
        decreases t.headers@.len() - i,
    {
        let h = t.headers[i].as_str().len();
        let m = cell_max_exec(&t.rows, i);
        widths.push(if h > m { h } else { m });
        i = i + 1;
    }
    widths
}

fn push_framed(out: &mut String, cells: &Vec<String>)
    ensures
        final(out)@ == old(out)@ + framed(string_views(cells@)),
{
    let mut line = String::from_str("| ");
    let joined = join_strings(cells, " | ");
    line.append(joined.as_str());
    line.append(" |");
    line.append("\n");
    out.append(line.as_str());
}

fn push_row_line(out: &mut String, t: &SectionTable, widths: &Vec<usize>, row: &Vec<String>)
    requires
        widths@.len() == t.headers@.len(),
        forall|i: int| 0 <= i < widths@.len() ==> widths@[i] == column_width(*t, i),
    ensures
        final(out)@ == old(out)@ + framed(row_cells(*t, row@)),
{
    let mut cells: Vec<String> = Vec::new();
    let mut i: usize = 0;
    while i < widths.len()
        invariant
            widths@.len() == t.headers@.len(),
            forall|k: int| 0 <= k < widths@.len() ==> widths@[k] == column_width(*t, k),
            i <= widths@.len(),
            cells@.len() == i,
            forall|k: int| 0 <= k < i ==> (#[trigger] cells@[k])@ == row_cells(*t, row@)[k],
        decreases widths@.len() - i,
    {
        let mut cell = String::new();
        if i < row.len() {
            push_pad_left(&mut cell, row[i].as_str(), widths[i]);
        } else {
            push_pad_left(&mut cell, "", widths[i]);
            proof {
                reveal_strlit("");
            }
        }
        assert(cell@ =~= row_cells(*t, row@)[i as int]);
        cells.push(cell);
        i = i + 1;
    }
    assert(string_views(cells@) =~= row_cells(*t, row@));
    push_framed(out, &cells);
}

/// Renders a custom section table: bold title, header row, separator, then
/// one line per row. Each column is sized to its widest cell (header
/// included); data cells are right-aligned.
pub fn write_section_table(table: &SectionTable) -> (r: String)
    ensures
        r@ == section_table_text(*table),
{
    let mut out = String::new();
    if !table.title.as_str().is_empty() {
        out.append("**");
        out.append(table.title.as_str());
        out.append("**");
        out.append("\n");
    }
    let ghost title_part = out@;
    assert(title_part =~= (if table.title@.len() == 0 {
        Seq::<char>::empty()
    } else {
        "**"@ + table.title@ + "**"@ + "\n"@
    }));
    let widths = column_widths(table);
    let mut head: Vec<String> = Vec::new();
    let mut sep: Vec<String> = Vec::new();
    let mut i: usize = 0;
    while i < widths.len()
        invariant
            widths@.len() == table.headers@.len(),
            forall|k: int| 0 <= k < widths@.len() ==> widths@[k] == column_width(*table, k),
            i <= widths@.len(),
            head@.len() == i,
            sep@.len() == i,
            forall|k: int| 0 <= k < i ==> (#[trigger] head@[k])@ == header_cells(*table)[k],
            forall|k: int| 0 <= k < i ==> (#[trigger] sep@[k])@ == separator_cells(*table)[k],
        decreases widths@.len() - i,
    {
        let mut h = String::new();
        push_pad_right(&mut h, table.headers[i].as_str(), widths[i]);
        assert(h@ =~= header_cells(*table)[i as int]);
        head.push(h);
        let mut d = String::new();
        push_repeat(&mut d, '-', widths[i]);
        assert(d@ =~= separator_cells(*table)[i as int]);
        sep.push(d);
        i = i + 1;
    }
    assert(string_views(head@) =~= header_cells(*table));
    assert(string_views(sep@) =~= separator_cells(*table));
    push_framed(&mut out, &head);
    push_framed(&mut out, &sep);
    let ghost o0 = out@;
    let ghost f = row_line_fn(*table);
    let mut k: usize = 0;
    assert(table.rows@.take(0) =~= Seq::<Vec<String>>::empty());
    while k < table.rows.len()
        invariant
            widths@.len() == table.headers@.len(),
            forall|j: int| 0 <= j < widths@.len() ==> widths@[j] == column_width(*table, j),
            f == row_line_fn(*table),
            k <= table.rows@.len(),
            out@ == o0 + concat_map(table.rows@.take(k as int), f),
        decreases table.rows@.len() - k,
    {
        proof {
            lemma_concat_map_step(table.rows@, f, k as int);
        }
        push_row_line(&mut out, table, &widths, &table.rows[k]);
        assert(out@ =~= o0 + concat_map(table.rows@.take(k + 1), f));
        k = k + 1;
    }
    proof {
        lemma_take_all(table.rows@);
    }
    out.append("\n");
    out
}


// ---------------------------------------------------------------------------
// Profiling logs
// ---------------------------------------------------------------------------

/// The function name of a profiling log: the first line, trimmed, from its
/// first run of four spaces on, trimmed again.
pub open spec fn parsed_name(ls: Seq<Seq<char>>) -> Option<Seq<char>> {
    let first = trim(ls[0]);
    match find(first, "    "@) {
        Some(pos) => Some(trim(first.skip(pos))),
        None => None,
    }
}

/// The source location of a profiling log: the second line, trimmed, from
/// `src/` on when it holds `src/`.
pub open spec fn parsed_location(ls: Seq<Seq<char>>) -> Seq<char> {
    let loc = trim(ls[1]);
    match find(loc, "src/"@) {
        Some(p) => loc.skip(p),
        None => loc,
    }
}

pub open spec fn is_cu_line(l: Seq<char>) -> bool {
    contains(l, "consumed"@) && contains(l, "net"@)
}

/// The first word after `consumed`, as a number (0 when it is not one).
pub open spec fn total_of(l: Seq<char>) -> u64 {
    let after = l.skip(find(l, "consumed"@)->0 + "consumed"@.len());
    match first_word(after) {
        Some(w) => parse_or_zero(w, u64::MAX as nat) as u64,
        None => 0,
    }
}

/// What stands between `(net` and the next `)`, as a number (0 when there
/// is no such text or it is not a number).
pub open spec fn net_of(l: Seq<char>) -> u64 {
    match find(l, "(net"@) {
        Some(np) => {
            let after = trim_start(l.skip(np + "(net"@.len()));
            match find(after, ")"@) {
                Some(end) => parse_or_zero(trim(after.take(end)), u64::MAX as nat) as u64,
                None => 0,
            }
        },
        None => 0,
    }
}

/// Total and net CU from the first line that mentions both `consumed` and
/// `net`; zero when there is none.
pub open spec fn cu_figures(ls: Seq<Seq<char>>) -> (u64, u64)
    decreases ls.len(),
{
    if ls.len() == 0 {
        (0, 0)
    } else if is_cu_line(ls[0]) {
        (total_of(ls[0]), net_of(ls[0]))
    } else {
        cu_figures(ls.drop_first())
    }
}

/// The entry a log line stands for: `(name, location, total CU, net CU)`.
/// Only `Program log: #` lines of at least two lines, whose first line holds
/// four spaces and that report some consumption, stand for one.
pub open spec fn parse_log(log: Seq<char>) -> Option<(Seq<char>, Seq<char>, u64, u64)> {
    if !starts_with(log, "Program log: #"@) {
        None
    } else {
        let ls = lines(log.skip("Program log: "@.len() as int));
        if ls.len() < 2 {
            None
        } else {
            match parsed_name(ls) {
                None => None,
                Some(name) => {
                    let cu = cu_figures(ls);
                    if cu.0 > 0 || cu.1 > 0 {
                        Some((name, parsed_location(ls), cu.0, cu.1))
                    } else {
                        None
                    }
                },
            }
        }
    }
}

pub open spec fn parse_logs(logs: Seq<String>) -> Seq<(Seq<char>, Seq<char>, u64, u64)>
    decreases logs.len(),
{
    if logs.len() == 0 {
        Seq::empty()
    } else {
        let rest = parse_logs(logs.drop_last());
        match parse_log(logs.last()@) {
            Some(e) => rest.push(e),
            None => rest,
        }
    }
}

pub open spec fn entry_view(e: ProfileEntry) -> (Seq<char>, Seq<char>, u64, u64) {
    (e.func_name@, e.file_location@, e.total_cu, e.net_cu)
}

fn contains_exec(v: &Vec<char>, pat: &str) -> (r: bool)
    ensures
        r == contains(v@, pat@),
{
    let p = chars_of(pat);
    find_in(v, &p, 0).is_some()
}

fn total_of_exec(l: &Vec<char>) -> (r: u64)
    requires
        contains(l@, "consumed"@),
    ensures
        r == total_of(l@),
{
    let pat = chars_of("consumed");
    let n = l.len();
    let consumed_pos = match find_in(l, &pat, 0) {
        Some(p) => p,
        None => {
            return 0;
        },
    };
    proof {
        lemma_find_from_matches(l@, pat@, 0);
    }
    let after = sub_vec(l, consumed_pos + pat.len(), n);
    assert(after@ =~= l@.skip(consumed_pos + "consumed"@.len()));
    match first_word_vec(&after) {
        Some(w) => match parse_uint_vec(&w, u64::MAX) {
            Some(x) => x,
            None => 0,
        },
        None => 0,
    }
}

fn net_of_exec(l: &Vec<char>) -> (r: u64)
    ensures
        r == net_of(l@),
{
    let pat = chars_of("(net");
    let n = l.len();
    match find_in(l, &pat, 0) {
        Some(net_pos) => {
            proof {
                lemma_find_from_matches(l@, pat@, 0);
            }
            let rest = sub_vec(l, net_pos + pat.len(), n);
            assert(rest@ =~= l@.skip(net_pos + "(net"@.len()));
            let after = trim_start_vec(&rest);
            let close = chars_of(")");
            match find_in(&after, &close, 0) {
                Some(end) => {
                    proof {
                        lemma_find_from_matches(after@, close@, 0);
                    }
                    let num = sub_vec(&after, 0, end);
                    let t = trim_vec(&num);
                    assert(num@ =~= after@.take(end as int));
                    match parse_uint_vec(&t, u64::MAX) {
                        Some(x) => x,
                        None => 0,
                    }
                },
                None => 0,
            }
        },
        None => 0,
    }
}

fn cu_figures_exec(ls: &Vec<Vec<char>>) -> (r: (u64, u64))
    ensures
        r == cu_figures(views(ls@)),
{
    let mut i: usize = 0;
    assert(views(ls@).skip(0) =~= views(ls@));
    while i < ls.len()
        invariant
            i <= ls@.len(),
            cu_figures(views(ls@)) == cu_figures(views(ls@).skip(i as int)),
        decreases ls@.len() - i,
    {
        let ghost rest = views(ls@).skip(i as int);
        assert(rest[0] == ls@[i as int]@);
        assert(rest.drop_first() =~= views(ls@).skip(i + 1));
        let line = &ls[i];
        if contains_exec(line, "consumed") && contains_exec(line, "net") {
            let total = total_of_exec(line);
            let net = net_of_exec(line);
            return (total, net);
        }
        i = i + 1;
    }
    (0, 0)
}

fn parse_log_exec(log: &String) -> (r: Option<ProfileEntry>)
    ensures
        match r {
            Some(e) => parse_log(log@) == Some(entry_view(e)),
            None => parse_log(log@) is None,
        },
{
    let v = chars_of(log.as_str());
    if !starts_with_vec(&v, "Program log: #") {
        return None;
    }
    let prefix = chars_of("Program log: ");
    proof {
        reveal_strlit("Program log: #");
        reveal_strlit("Program log: ");
    }
    let n = v.len();
    let content = sub_vec(&v, prefix.len(), n);
    assert(content@ =~= log@.skip("Program log: "@.len() as int));
    let ls = lines_vec(&content);
    if ls.len() < 2 {
        return None;
    }
    let first_line = trim_vec(&ls[0]);
    let gap = chars_of("    ");
    let func_name = match find_in(&first_line, &gap, 0) {
        Some(pos) => {
            proof {
                lemma_find_from_matches(first_line@, gap@, 0);
            }
            let fl = first_line.len();
            let tail = sub_vec(&first_line, pos, fl);
            assert(tail@ =~= first_line@.skip(pos as int));
            trim_vec(&tail)
        },
        None => {
            return None;
        },
    };
    let loc = trim_vec(&ls[1]);
    let src = chars_of("src/");
    let file_location = match find_in(&loc, &src, 0) {
        Some(pos) => {
            proof {
                lemma_find_from_matches(loc@, src@, 0);
            }
            let ll = loc.len();
            let tail = sub_vec(&loc, pos, ll);
            assert(tail@ =~= loc@.skip(pos as int));
            tail
        },
        None => loc,
    };
    let (total_cu, net_cu) = cu_figures_exec(&ls);
    if total_cu > 0 || net_cu > 0 {
        let nl = func_name.len();
        let fll = file_location.len();
        Some(
            ProfileEntry {
                func_name: string_of(&func_name, 0, nl),
                file_location: string_of(&file_location, 0, fll),
                total_cu,
                net_cu,
            },
        )
    } else {
        None
    }
}

/// Parses profiling entries from program log lines.
///
/// Expects the log format emitted by the patched agave profiling runtime.
/// Each profiled function produces a log entry starting with
/// "Program log: #" containing the function name, source location, and CU
/// consumption.
pub fn parse_profiling_logs(logs: &[String]) -> (r: Vec<ProfileEntry>)
    ensures
        r@.map_values(|e: ProfileEntry| entry_view(e)) == parse_logs(logs@),
{
    let mut entries: Vec<ProfileEntry> = Vec::new();
    let mut i: usize = 0;
    assert(logs@.take(0) =~= Seq::<String>::empty());
    while i < logs.len()
        invariant
            i <= logs@.len(),
            entries@.map_values(|e: ProfileEntry| entry_view(e)) == parse_logs(logs@.take(i as int)),
        decreases logs@.len() - i,
    {
        assert(logs@.take(i + 1).drop_last() =~= logs@.take(i as int));
        assert(logs@.take(i + 1).last() == logs@[i as int]);
        let ghost before = entries@;
        match parse_log_exec(&logs[i]) {
            Some(e) => {
                entries.push(e);
                assert(entries@.map_values(|e: ProfileEntry| entry_view(e)) =~= before.map_values(
                    |e: ProfileEntry| entry_view(e),
                ).push(entry_view(e)));
            },
            None => {},
        }
        i = i + 1;
    }
    proof {
        lemma_take_all(logs@);
    }
    entries
}


// ---------------------------------------------------------------------------
// Named collections
// ---------------------------------------------------------------------------

/// The items stored under `k`: those of the first pair named `k`.
pub open spec fn pair_lookup<V>(pairs: Seq<(String, Vec<V>)>, k: Seq<char>) -> Option<Seq<V>>
    decreases pairs.len(),
{
    if pairs.len() == 0 {
        None
    } else if pairs[0].0@ == k {
        Some(pairs[0].1@)
    } else {
        pair_lookup(pairs.drop_first(), k)
    }
}

/// Named lists of items as a map from name to items.
pub open spec fn pairs_map<V>(pairs: Seq<(String, Vec<V>)>) -> Map<Seq<char>, Seq<V>> {
    Map::new(|k: Seq<char>| pair_lookup(pairs, k) is Some, |k: Seq<char>| pair_lookup(pairs, k)->0)
}

pub open spec fn get_or_empty<V>(m: Map<Seq<char>, Seq<V>>, k: Seq<char>) -> Seq<V> {
    if m.dom().contains(k) {
        m[k]
    } else {
        Seq::empty()
    }
}

proof fn lemma_lookup_push<V>(pairs: Seq<(String, Vec<V>)>, p: (String, Vec<V>), x: Seq<char>)
    ensures
        pair_lookup(pairs.push(p), x) == match pair_lookup(pairs, x) {
            Some(v) => Some(v),
            None => if p.0@ == x {
                Some(p.1@)
            } else {
                None
            },
        },
    decreases pairs.len(),
{
    if pairs.len() > 0 {
        assert(pairs.push(p)[0] == pairs[0]);
        assert(pairs.push(p).drop_first() =~= pairs.drop_first().push(p));
        lemma_lookup_push(pairs.drop_first(), p, x);
    } else {
        assert(pairs.push(p)[0] == p);
        assert(pairs.push(p).drop_first() =~= Seq::<(String, Vec<V>)>::empty());
        assert(pair_lookup(Seq::<(String, Vec<V>)>::empty(), x) is None);
    }
}

proof fn lemma_lookup_update<V>(
    pairs: Seq<(String, Vec<V>)>,
    i: int,
    p: (String, Vec<V>),
    x: Seq<char>,
)
    requires
        0 <= i < pairs.len(),
        pairs[i].0@ == p.0@,
        forall|k: int| 0 <= k < i ==> pairs[k].0@ != p.0@,
    ensures
        pair_lookup(pairs.update(i, p), x) == if x == p.0@ {
            Some(p.1@)
        } else {
            pair_lookup(pairs, x)
        },
    decreases i,
{
    if i > 0 {
        assert(pairs.update(i, p)[0] == pairs[0]);
        assert(pairs[0].0@ != p.0@);
        assert(pairs.update(i, p).drop_first() =~= pairs.drop_first().update(i - 1, p));
        lemma_lookup_update(pairs.drop_first(), i - 1, p, x);
    } else {
        assert(pairs.update(i, p)[0] == p);
        assert(pairs.update(i, p).drop_first() =~= pairs.drop_first());
    }
}

/// Adds `items` to the list named `name`, creating it when there is none.
fn add_to<V>(pairs: &mut Vec<(String, Vec<V>)>, name: &str, new_items: Vec<V>)
    ensures
        pairs_map(final(pairs)@) == pairs_map(old(pairs)@).insert(
            name@,
            get_or_empty(pairs_map(old(pairs)@), name@) + new_items@,
        ),
{
    let mut items = new_items;
    let ghost old_pairs = pairs@;
    let ghost old_items = items@;
    let mut i: usize = 0;
    assert(old_pairs.skip(0) =~= old_pairs);
    while i < pairs.len()
        invariant
            pairs@ == old_pairs,
            items@ == old_items,
            old_items == new_items@,
            old_pairs == old(pairs)@,
            i <= pairs@.len(),
            forall|k: int| 0 <= k < i ==> pairs@[k].0@ != name@,
            pair_lookup(old_pairs, name@) == pair_lookup(old_pairs.skip(i as int), name@),
        decreases pairs@.len() - i,
    {
        assert(old_pairs.skip(i as int)[0] == old_pairs[i as int]);
        assert(old_pairs.skip(i as int).drop_first() =~= old_pairs.skip(i + 1));
        if str_eq(pairs[i].0.as_str(), name) {
            let (key, mut list) = pairs.remove(i);
            let ghost old_list = list@;
            assert(pair_lookup(old_pairs, name@) == Some(old_list));
            list.append(&mut items);
            assert(list@ == old_list + old_items);
            let ghost new_pair = (key, list);
            pairs.insert(i, (key, list));
            proof {
                assert(pairs@ =~= old_pairs.update(i as int, new_pair));
                assert(pairs_map(pairs@) =~= pairs_map(old_pairs).insert(
                    name@,
                    get_or_empty(pairs_map(old_pairs), name@) + old_items,
                )) by {
                    assert forall|x: Seq<char>| #[trigger] pair_lookup(pairs@, x) == if x == name@ {
                        Some(new_pair.1@)
                    } else {
                        pair_lookup(old_pairs, x)
                    } by {
                        lemma_lookup_update(old_pairs, i as int, new_pair, x);
                    }
                }
            }
            return;
        }
        i = i + 1;
    }
    let key = String::from_str(name);
    let ghost new_pair = (key, items);
    pairs.push((key, items));
    proof {
        assert(pair_lookup(old_pairs, name@) is None) by {
            assert(old_pairs.skip(i as int).len() == 0);
        }
        assert(pairs_map(pairs@) =~= pairs_map(old_pairs).insert(
            name@,
            get_or_empty(pairs_map(old_pairs), name@) + old_items,
        )) by {
            assert(Seq::<V>::empty() + old_items =~= old_items);
            assert forall|x: Seq<char>| #[trigger] pair_lookup(pairs@, x) == match pair_lookup(
                old_pairs,
                x,
            ) {
                Some(v) => Some(v),
                None => if new_pair.0@ == x {
                    Some(new_pair.1@)
                } else {
                    None
                },
            } by {
                lemma_lookup_push(old_pairs, new_pair, x);
            }
        }
    }
}



// ---------------------------------------------------------------------------
// Section order
// ---------------------------------------------------------------------------

pub open spec fn strictly_sorted(s: Seq<Seq<char>>) -> bool {
    forall|i: int, j: int| 0 <= i < j < s.len() ==> str_lt(#[trigger] s[i], #[trigger] s[j])
}

/// Where `x` belongs in the sorted `s`: after every name less than it.
pub open spec fn first_not_less(s: Seq<Seq<char>>, x: Seq<char>) -> int
    decreases s.len(),
{
    if s.len() == 0 {
        0
    } else if str_lt(s[0], x) {
        1 + first_not_less(s.drop_first(), x)
    } else {
        0
    }
}

/// `x` added to the sorted `s` unless it is there already.
pub open spec fn insert_sorted(s: Seq<Seq<char>>, x: Seq<char>) -> Seq<Seq<char>> {
    let p = first_not_less(s, x);
    if p < s.len() && s[p] == x {
        s
    } else {
        s.insert(p, x)
    }
}

pub open spec fn insert_all(s: Seq<Seq<char>>, xs: Seq<Seq<char>>) -> Seq<Seq<char>>
    decreases xs.len(),
{
    if xs.len() == 0 {
        s
    } else {
        insert_sorted(insert_all(s, xs.drop_last()), xs.last())
    }
}

pub open spec fn pair_keys<V>(pairs: Seq<(String, Vec<V>)>) -> Seq<Seq<char>> {
    pairs.map_values(|p: (String, Vec<V>)| p.0@)
}

proof fn lemma_first_not_less(s: Seq<Seq<char>>, x: Seq<char>)
    requires
        strictly_sorted(s),
    ensures
        0 <= first_not_less(s, x) <= s.len(),
        forall|k: int| 0 <= k < first_not_less(s, x) ==> str_lt(#[trigger] s[k], x),
        first_not_less(s, x) < s.len() ==> !str_lt(s[first_not_less(s, x)], x),
    decreases s.len(),
{
    if s.len() > 0 && str_lt(s[0], x) {
        let t = s.drop_first();
        assert(strictly_sorted(t)) by {
            assert forall|i: int, j: int| 0 <= i < j < t.len() implies str_lt(
                #[trigger] t[i],
                #[trigger] t[j],
            ) by {
                assert(t[i] == s[i + 1] && t[j] == s[j + 1]);
            }
        }
        lemma_first_not_less(t, x);
        assert forall|k: int| 0 <= k < first_not_less(s, x) implies str_lt(#[trigger] s[k], x) by {
            if k > 0 {
                assert(s[k] == t[k - 1]);
            }
        }
    }
}

proof fn lemma_insert_sorted(s: Seq<Seq<char>>, x: Seq<char>)
    requires
        strictly_sorted(s),
    ensures
        strictly_sorted(insert_sorted(s, x)),
        forall|y: Seq<char>| #[trigger] insert_sorted(s, x).contains(y) <==> (s.contains(y) || y == x),
{
    lemma_first_not_less(s, x);
    let p = first_not_less(s, x);
    if p < s.len() && s[p] == x {
    } else {
        let r = s.insert(p, x);
        if p < s.len() {
            lemma_str_lt_total(s[p], x);
        }
        assert forall|i: int, j: int| 0 <= i < j < r.len() implies str_lt(
            #[trigger] r[i],
            #[trigger] r[j],
        ) by {
            if j < p {
                assert(r[i] == s[i] && r[j] == s[j]);
            } else if j == p {
                assert(r[i] == s[i]);
            } else if i < p {
                assert(r[i] == s[i] && r[j] == s[j - 1]);
                if j - 1 > p {
                    lemma_str_lt_transitive(s[i], x, s[p]);
                    lemma_str_lt_transitive(s[i], s[p], s[j - 1]);
                } else {
                    lemma_str_lt_transitive(s[i], x, s[p]);
                }
            } else if i == p {
                assert(r[j] == s[j - 1]);
                if j - 1 > p {
                    lemma_str_lt_transitive(x, s[p], s[j - 1]);
                }
            } else {
                assert(r[i] == s[i - 1] && r[j] == s[j - 1]);
            }
        }
        assert forall|y: Seq<char>| #[trigger] r.contains(y) <==> (s.contains(y) || y == x) by {
            if r.contains(y) {
                let k = choose|k: int| 0 <= k < r.len() && r[k] == y;
                if k < p {
                    assert(s[k] == y);
                } else if k > p {
                    assert(s[k - 1] == y);
                }
            }
            if s.contains(y) {
                let k = choose|k: int| 0 <= k < s.len() && s[k] == y;
                if k < p {
                    assert(r[k] == y);
                } else {
                    assert(r[k + 1] == y);
                }
            }
            if y == x {
                assert(r[p] == y);
            }
        }
    }
}

proof fn lemma_insert_all(s: Seq<Seq<char>>, xs: Seq<Seq<char>>)
    requires
        strictly_sorted(s),
    ensures
        strictly_sorted(insert_all(s, xs)),
        forall|y: Seq<char>| #[trigger] insert_all(s, xs).contains(y) <==> (s.contains(y) || xs.contains(y)),
    decreases xs.len(),
{
    if xs.len() > 0 {
        lemma_insert_all(s, xs.drop_last());
        lemma_insert_sorted(insert_all(s, xs.drop_last()), xs.last());
        assert forall|y: Seq<char>| #[trigger] insert_all(s, xs).contains(y) <==> (s.contains(y)
            || xs.contains(y)) by {
            if xs.drop_last().contains(y) {
                let k = choose|k: int| 0 <= k < xs.drop_last().len() && xs.drop_last()[k] == y;
                assert(xs[k] == y);
            }
            if xs.contains(y) && y != xs.last() {
                let k = choose|k: int| 0 <= k < xs.len() && xs[k] == y;
                assert(xs.drop_last()[k] == y);
            }
            if y == xs.last() {
                assert(xs[xs.len() - 1] == y);
            }
        }
    }
}

proof fn lemma_keys_dom<V>(pairs: Seq<(String, Vec<V>)>, y: Seq<char>)
    ensures
        pair_keys(pairs).contains(y) <==> pairs_map(pairs).dom().contains(y),
    decreases pairs.len(),
{
    if pairs.len() > 0 {
        lemma_keys_dom(pairs.drop_first(), y);
        assert(pair_keys(pairs.drop_first()) =~= pair_keys(pairs).drop_first());
        if pair_keys(pairs).contains(y) && pairs[0].0@ != y {
            let k = choose|k: int| 0 <= k < pairs.len() && pair_keys(pairs)[k] == y;
            assert(pair_keys(pairs.drop_first())[k - 1] == y);
        }
        if pair_keys(pairs.drop_first()).contains(y) {
            let k = choose|k: int|
                0 <= k < pairs.len() - 1 && pair_keys(pairs.drop_first())[k] == y;
            assert(pair_keys(pairs)[k + 1] == y);
        }
        if pairs[0].0@ == y {
            assert(pair_keys(pairs)[0] == y);
        }
    }
}

fn insert_name(names: &mut Vec<String>, x: &String)
    requires
        strictly_sorted(string_views(old(names)@)),
    ensures
        string_views(final(names)@) == insert_sorted(string_views(old(names)@), x@),
{
    let ghost s = string_views(names@);
    proof {
        lemma_first_not_less(s, x@);
    }
    let mut i: usize = 0;
    while i < names.len() && str_less(names[i].as_str(), x.as_str())
        invariant
            s == string_views(names@),
            strictly_sorted(s),
            0 <= first_not_less(s, x@) <= s.len(),
            forall|k: int| 0 <= k < first_not_less(s, x@) ==> str_lt(#[trigger] s[k], x@),
            first_not_less(s, x@) < s.len() ==> !str_lt(s[first_not_less(s, x@)], x@),
            i <= first_not_less(s, x@),
        decreases names@.len() - i,
    {
        assert(s[i as int] == names@[i as int]@);
        i = i + 1;
    }
    proof {
        if i < first_not_less(s, x@) {
            assert(str_lt(s[i as int], x@));
            assert(s[i as int] == names@[i as int]@);
        }
    }
    if i < names.len() && str_eq(names[i].as_str(), x.as_str()) {
        return;
    }
    names.insert(i, x.clone());
    assert(string_views(names@) =~= s.insert(i as int, x@));
}


// ---------------------------------------------------------------------------
// CuBenchmark
// ---------------------------------------------------------------------------

/// Collects per-instruction profiling results and generates a markdown report.
pub struct CuBenchmark {
    config: ReadmeConfig,
    results: Vec<(String, Vec<ProfileEntry>)>,
    tables: Vec<(String, Vec<SectionTable>)>,
}

impl CuBenchmark {
    pub closed spec fn config_view(&self) -> ReadmeConfig {
        self.config
    }

    /// The profiling entries of each instruction.
    pub closed spec fn results_view(&self) -> Map<Seq<char>, Seq<ProfileEntry>> {
        pairs_map(self.results@)
    }

    /// The custom tables of each instruction, in insertion order.
    pub closed spec fn tables_view(&self) -> Map<Seq<char>, Seq<SectionTable>> {
        pairs_map(self.tables@)
    }

    /// The sections of the report, in the order they are rendered.
    pub closed spec fn section_order(&self) -> Seq<Seq<char>> {
        insert_all(insert_all(Seq::empty(), pair_keys(self.results@)), pair_keys(self.tables@))
    }

    /// The report has one section per instruction with CU entries, custom
    /// tables or both, each once, sorted by name.
    pub proof fn lemma_section_order(&self)
        ensures
            strictly_sorted(self.section_order()),
            forall|n: Seq<char>| #[trigger]
                self.section_order().contains(n) <==> (self.results_view().dom().contains(n)
                    || self.tables_view().dom().contains(n)),
    {
        let e = Seq::<Seq<char>>::empty();
        assert(strictly_sorted(e));
        lemma_insert_all(e, pair_keys(self.results@));
        lemma_insert_all(insert_all(e, pair_keys(self.results@)), pair_keys(self.tables@));
        assert forall|n: Seq<char>| #[trigger]
            self.section_order().contains(n) <==> (self.results_view().dom().contains(n)
                || self.tables_view().dom().contains(n)) by {
            lemma_keys_dom(self.results@, n);
            lemma_keys_dom(self.tables@, n);
        }
    }

    /// A table added under a name gives that name a section of its own, even
    /// without CU entries, and every section that was there stays.
    pub proof fn lemma_add_table_section(&self, after: CuBenchmark, name: Seq<char>, table: SectionTable)
        requires
            after.results_view() == self.results_view(),
            after.tables_view() == self.tables_view().insert(
                name,
                get_or_empty(self.tables_view(), name).push(table),
            ),
        ensures
            after.section_order().contains(name),
            forall|n: Seq<char>| #[trigger] self.section_order().contains(n) ==> after.section_order().contains(n),
            get_or_empty(after.tables_view(), name).last() == table,
    {
        self.lemma_section_order();
        after.lemma_section_order();
        assert(after.tables_view().dom().contains(name));
        assert forall|n: Seq<char>| #[trigger] self.section_order().contains(n) implies after.section_order().contains(n) by {
            if self.tables_view().dom().contains(n) {
                assert(after.tables_view().dom().contains(n));
            }
        }
    }

    /// Entries added under a name give that name a section, after the
    /// entries that were already there.
    pub proof fn lemma_add_entries_section(
        &self,
        after: CuBenchmark,
        name: Seq<char>,
        entries: Seq<ProfileEntry>,
    )
        requires
            after.tables_view() == self.tables_view(),
            after.results_view() == self.results_view().insert(
                name,
                get_or_empty(self.results_view(), name) + entries,
            ),
        ensures
            after.section_order().contains(name),
            get_or_empty(after.results_view(), name).subrange(
                0,
                get_or_empty(self.results_view(), name).len() as int,
            ) == get_or_empty(self.results_view(), name),
    {
        after.lemma_section_order();
        assert(after.results_view().dom().contains(name));
        assert(get_or_empty(after.results_view(), name).subrange(
            0,
            get_or_empty(self.results_view(), name).len() as int,
        ) =~= get_or_empty(self.results_view(), name));
    }

    /// A benchmark with no results yet. The override names are distinct, as
    /// the keys of a map are.
    pub fn new(config: ReadmeConfig) -> (r: Self)
        requires
            names_unique(config.display_name_overrides@),
        ensures
            r.config_view() == config,
            r.results_view() == Map::<Seq<char>, Seq<ProfileEntry>>::empty(),
            r.tables_view() == Map::<Seq<char>, Seq<SectionTable>>::empty(),
    {
        let r = CuBenchmark { config, results: Vec::new(), tables: Vec::new() };
        assert(r.results_view() =~= Map::<Seq<char>, Seq<ProfileEntry>>::empty());
        assert(r.tables_view() =~= Map::<Seq<char>, Seq<SectionTable>>::empty());
        r
    }

    /// Parses profiling entries from program log lines and adds them under `name`.
    pub fn add_from_logs(&mut self, name: &str, logs: &[String])
        ensures
            final(self).config_view() == old(self).config_view(),
            final(self).tables_view() == old(self).tables_view(),
            exists|entries: Seq<ProfileEntry>|
                entries.map_values(|e: ProfileEntry| entry_view(e)) == parse_logs(logs@)
                    && final(self).results_view() == old(self).results_view().insert(
                    name@,
                    get_or_empty(old(self).results_view(), name@) + entries,
                ),
    {
        let entries = parse_profiling_logs(logs);
        let ghost es = entries@;
        self.add_from_entries(name, entries);
        assert(es.map_values(|e: ProfileEntry| entry_view(e)) == parse_logs(logs@));
    }

    /// Adds pre-built profiling entries under `name`.
    pub fn add_from_entries(&mut self, name: &str, entries: Vec<ProfileEntry>)
        ensures
            final(self).config_view() == old(self).config_view(),
            final(self).tables_view() == old(self).tables_view(),
            final(self).results_view() == old(self).results_view().insert(
                name@,
                get_or_empty(old(self).results_view(), name@) + entries@,
            ),
    {
        add_to(&mut self.results, name, entries);
    }

    /// Appends a custom table to `name`'s section, rendered after the CU
    /// table. Tables render in insertion order; a `name` without CU entries
    /// still gets its own section.
    pub fn add_table(&mut self, name: &str, table: SectionTable)
        ensures
            final(self).config_view() == old(self).config_view(),
            final(self).results_view() == old(self).results_view(),
            final(self).tables_view() == old(self).tables_view().insert(
                name@,
                get_or_empty(old(self).tables_view(), name@).push(table),
            ),
    {
        let mut one: Vec<SectionTable> = Vec::new();
        one.push(table);
        add_to(&mut self.tables, name, one);
        assert(get_or_empty(old(self).tables_view(), name@).push(table) =~= get_or_empty(
            old(self).tables_view(),
            name@,
        ) + seq![table]);
    }

    /// All section names, sorted: instructions with CU entries, custom
    /// tables, or both.
    pub fn section_names(&self) -> (r: Vec<String>)
        ensures
            string_views(r@) == self.section_order(),
    {
        let mut names: Vec<String> = Vec::new();
        let ghost e = Seq::<Seq<char>>::empty();
        let ghost rk = pair_keys(self.results@);
        let ghost tk = pair_keys(self.tables@);
        assert(string_views(names@) =~= insert_all(e, rk.take(0)));
        let mut i: usize = 0;
        while i < self.results.len()
            invariant
                e == Seq::<Seq<char>>::empty(),
                rk == pair_keys(self.results@),
                i <= self.results@.len(),
                string_views(names@) == insert_all(e, rk.take(i as int)),
            decreases self.results@.len() - i,
        {
            proof {
                assert(strictly_sorted(e));
                lemma_insert_all(e, rk.take(i as int));
                assert(rk.take(i + 1).drop_last() =~= rk.take(i as int));
            }
            insert_name(&mut names, &self.results[i].0);
            i = i + 1;
        }
        proof {
            lemma_take_all(rk);
        }
        let ghost base = insert_all(e, rk);
        assert(string_views(names@) =~= insert_all(base, tk.take(0)));
        let mut j: usize = 0;
        while j < self.tables.len()
            invariant
                e == Seq::<Seq<char>>::empty(),
                tk == pair_keys(self.tables@),
                base == insert_all(e, rk),
                j <= self.tables@.len(),
                string_views(names@) == insert_all(base, tk.take(j as int)),
            decreases self.tables@.len() - j,
        {
            proof {
                assert(strictly_sorted(e));
                lemma_insert_all(e, rk);
                lemma_insert_all(base, tk.take(j as int));
                assert(tk.take(j + 1).drop_last() =~= tk.take(j as int));
            }
            insert_name(&mut names, &self.tables[j].0);
            j = j + 1;
        }
        proof {
            lemma_take_all(tk);
        }
        names
    }

    /// The configuration the report is generated with.
    pub fn config(&self) -> (r: &ReadmeConfig)
        ensures
            *r == self.config_view(),
    {
        &self.config
    }

    fn display_name(&self, name: &str) -> (r: String)
        ensures
            r@ == display_name_of(self.config_view().display_name_overrides@, name@),
    {
        match find_override(&self.config.display_name_overrides, name) {
            Some(n) => n,
            None => snake_to_title_case(name),
        }
    }
}


// ---------------------------------------------------------------------------
// Report text
// ---------------------------------------------------------------------------

/// The anchor of a section heading: its name in lower case, with spaces and
/// underscores as dashes.
pub open spec fn toc_anchor(name: Seq<char>) -> Seq<char> {
    replace_char(replace_char(lower(name), ' ', "-"@), '_', "-"@)
}

pub open spec fn toc_link(b: CuBenchmark, name: Seq<char>) -> Seq<char> {
    "["@ + display_name_of(b.config_view().display_name_overrides@, name) + "](#"@ + toc_anchor(name)
        + ")"@
}

/// The first entry of the function named `f`.
pub open spec fn first_with_name(es: Seq<ProfileEntry>, f: Seq<char>) -> Option<ProfileEntry>
    decreases es.len(),
{
    if es.len() == 0 {
        None
    } else if es[0].func_name@ == f {
        Some(es[0])
    } else {
        first_with_name(es.drop_first(), f)
    }
}

/// The CU shown for a section in the table of contents: the total of the
/// configured summary function's first entry in that section, if any.
pub open spec fn toc_cu(b: CuBenchmark, name: Seq<char>) -> Option<Seq<char>> {
    match b.config_view().toc_summary_function {
        Some(func) => if b.results_view().dom().contains(name) {
            match first_with_name(b.results_view()[name], func@) {
                Some(e) => Some(thousands(e.total_cu as nat)),
                None => None,
            }
        } else {
            None
        },
        None => None,
    }
}

pub open spec fn max_usize(a: usize, b: usize) -> usize {
    if a > b {
        a
    } else {
        b
    }
}

pub open spec fn links_max(b: CuBenchmark, names: Seq<Seq<char>>) -> usize
    decreases names.len(),
{
    if names.len() == 0 {
        0
    } else {
        max_usize(links_max(b, names.drop_last()), byte_len(toc_link(b, names.last())))
    }
}

pub open spec fn cus_max(b: CuBenchmark, names: Seq<Seq<char>>) -> usize
    decreases names.len(),
{
    if names.len() == 0 {
        0
    } else {
        max_usize(
            cus_max(b, names.drop_last()),
            match toc_cu(b, names.last()) {
                Some(c) => byte_len(c),
                None => 0,
            },
        )
    }
}

/// The width of the link column: the longest link, or 20 with no sections.
pub open spec fn link_width(b: CuBenchmark) -> usize {
    if b.section_order().len() == 0 {
        20
    } else {
        links_max(b, b.section_order())
    }
}

/// The width of the CU column: the longest CU shown, at least 6.
pub open spec fn cu_width(b: CuBenchmark) -> usize {
    max_usize(6, cus_max(b, b.section_order()))
}

pub open spec fn toc_row_fn(b: CuBenchmark) -> spec_fn(int, Seq<char>) -> Seq<char> {
    |i: int, name: Seq<char>|
        "| "@ + pad_right(dec((i + 1) as nat), 3) + " | "@ + pad_right(toc_link(b, name), link_width(b) as nat)
            + " | "@ + pad_left(
            match toc_cu(b, name) {
                Some(c) => c,
                None => "-"@,
            },
            cu_width(b) as nat,
        ) + " |"@ + "\n"@
}

pub open spec fn toc_item_fn(b: CuBenchmark) -> spec_fn(int, Seq<char>) -> Seq<char> {
    |i: int, name: Seq<char>| dec((i + 1) as nat) + ". "@ + toc_link(b, name) + "\n"@
}

/// The table of contents: a numbered table with a CU column when a summary
/// function is configured, else a numbered list of links.
pub open spec fn toc_text(b: CuBenchmark) -> Seq<char> {
    if b.config_view().toc_summary_function is Some {
        "| "@ + pad_right("#"@, 3) + " | "@ + pad_right("Instruction"@, link_width(b) as nat) + " | "@
            + pad_left("CU"@, cu_width(b) as nat) + " |"@ + "\n"@ + "| "@ + repeat_char('-', 3)
            + " | "@ + repeat_char('-', link_width(b) as nat) + " | "@ + repeat_char(
            '-',
            cu_width(b) as nat,
        ) + " |"@ + "\n"@ + concat_map(b.section_order(), toc_row_fn(b)) + "\n"@
    } else {
        concat_map(b.section_order(), toc_item_fn(b)) + "\n"@
    }
}


fn find_pair<V>(pairs: &Vec<(String, Vec<V>)>, name: &str) -> (r: Option<usize>)
    ensures
        match r {
            Some(i) => i < pairs@.len() && pair_lookup(pairs@, name@) == Some(pairs@[i as int].1@),
            None => pair_lookup(pairs@, name@) is None,
        },
{
    let mut i: usize = 0;
    assert(pairs@.skip(0) =~= pairs@);
    while i < pairs.len()
        invariant
            i <= pairs@.len(),
            pair_lookup(pairs@, name@) == pair_lookup(pairs@.skip(i as int), name@),
        decreases pairs@.len() - i,
    {
        assert(pairs@.skip(i as int)[0] == pairs@[i as int]);
        assert(pairs@.skip(i as int).drop_first() =~= pairs@.skip(i + 1));
        if str_eq(pairs[i].0.as_str(), name) {
            return Some(i);
        }
        i = i + 1;
    }
    None
}

fn find_entry(es: &Vec<ProfileEntry>, f: &String) -> (r: Option<usize>)
    ensures
        match r {
            Some(i) => i < es@.len() && first_with_name(es@, f@) == Some(es@[i as int]),
            None => first_with_name(es@, f@) is None,
        },
{
    let mut i: usize = 0;
    assert(es@.skip(0) =~= es@);
    while i < es.len()
        invariant
            i <= es@.len(),
            first_with_name(es@, f@) == first_with_name(es@.skip(i as int), f@),
        decreases es@.len() - i,
    {
        assert(es@.skip(i as int)[0] == es@[i as int]);
        assert(es@.skip(i as int).drop_first() =~= es@.skip(i + 1));
        if str_eq(es[i].func_name.as_str(), f.as_str()) {
            return Some(i);
        }
        i = i + 1;
    }
    None
}

pub open spec fn opt_view(o: Option<String>) -> Option<Seq<char>> {
    match o {
        Some(s) => Some(s@),
        None => None,
    }
}

impl CuBenchmark {
    fn toc_link_exec(&self, name: &String) -> (r: String)
        ensures
            r@ == toc_link(*self, name@),
    {
        let display = self.display_name(name.as_str());
        let low = to_lowercase(name.as_str());
        let a1 = replace_char_str(low.as_str(), ' ', "-");
        let anchor = replace_char_str(a1.as_str(), '_', "-");
        let mut link = String::from_str("[");
        link.append(display.as_str());
        link.append("](#");
        link.append(anchor.as_str());
        link.append(")");
        link
    }

    fn toc_cu_exec(&self, name: &String) -> (r: Option<String>)
        ensures
            opt_view(r) == toc_cu(*self, name@),
    {
        match &self.config.toc_summary_function {
            Some(func) => match find_pair(&self.results, name.as_str()) {
                Some(idx) => {
                    let es = &self.results[idx].1;
                    match find_entry(es, func) {
                        Some(k) => Some(format_thousands(es[k].total_cu)),
                        None => None,
                    }
                },
                None => None,
            },
            None => None,
        }
    }

    /// Renders the table of contents.
    pub fn write_toc(&self) -> (r: String)
        ensures
            r@ == toc_text(*self),
    {
        let names = self.section_names();
        let ghost order = self.section_order();
        let mut links: Vec<String> = Vec::new();
        let mut cus: Vec<Option<String>> = Vec::new();
        let mut max_link: usize = 0;
        let mut max_cu: usize = 0;
        let mut i: usize = 0;
        assert(order.take(0) =~= Seq::<Seq<char>>::empty());
        while i < names.len()
            invariant
                string_views(names@) == order,
                order == self.section_order(),
                i <= names@.len(),
                links@.len() == i,
                cus@.len() == i,
                forall|k: int| 0 <= k < i ==> (#[trigger] links@[k])@ == toc_link(*self, order[k]),
                forall|k: int| 0 <= k < i ==> opt_view(#[trigger] cus@[k]) == toc_cu(*self, order[k]),
                max_link == links_max(*self, order.take(i as int)),
                max_cu == cus_max(*self, order.take(i as int)),
            decreases names@.len() - i,
        {
            assert(order[i as int] == names@[i as int]@);
            assert(order.take(i + 1).drop_last() =~= order.take(i as int));
            let link = self.toc_link_exec(&names[i]);
            let cu = self.toc_cu_exec(&names[i]);
            let ll = link.as_str().len();
            if ll > max_link {
                max_link = ll;
            }
            match &cu {
                Some(c) => {
                    let cl = c.as_str().len();
                    if cl > max_cu {
                        max_cu = cl;
                    }
                },
                None => {},
            }
            links.push(link);
            cus.push(cu);
            i = i + 1;
        }
        proof {
            lemma_take_all(order);
        }
        if names.len() == 0 {
            max_link = 20;
        }
        let mut out = String::new();
        let ghost o0 = out@;
        if self.config.toc_summary_function.is_some() {
            if max_cu < 6 {
                max_cu = 6;
            }
            let mut head = String::from_str("| ");
            push_pad_right(&mut head, "#", 3);
            head.append(" | ");
            push_pad_right(&mut head, "Instruction", max_link);
            head.append(" | ");
            push_pad_left(&mut head, "CU", max_cu);
            head.append(" |");
            head.append("\n");
            head.append("| ");
            push_repeat(&mut head, '-', 3);
            head.append(" | ");
            push_repeat(&mut head, '-', max_link);
            head.append(" | ");
            push_repeat(&mut head, '-', max_cu);
            head.append(" |");
            head.append("\n");
            let ghost f = toc_row_fn(*self);
            let mut k: usize = 0;
            assert(head@ =~= head@ + concat_map(order.take(0), f));
            while k < names.len()
                invariant
                    string_views(names@) == order,
                    order == self.section_order(),
                    f == toc_row_fn(*self),
                    k <= names@.len(),
                    links@.len() == names@.len(),
                    cus@.len() == names@.len(),
                    forall|j: int| 0 <= j < names@.len() ==> (#[trigger] links@[j])@ == toc_link(*self, order[j]),
                    forall|j: int| 0 <= j < names@.len() ==> opt_view(#[trigger] cus@[j]) == toc_cu(*self, order[j]),
                    max_link == link_width(*self),
                    max_cu == cu_width(*self),
                    head@ == "| "@ + pad_right("#"@, 3) + " | "@ + pad_right("Instruction"@, link_width(*self) as nat) + " | "@
                        + pad_left("CU"@, cu_width(*self) as nat) + " |"@ + "\n"@ + "| "@ + repeat_char('-', 3)
                        + " | "@ + repeat_char('-', link_width(*self) as nat) + " | "@ + repeat_char(
                        '-',
                        cu_width(*self) as nat,
                    ) + " |"@ + "\n"@ + concat_map(order.take(k as int), f),
                decreases names@.len() - k,
            {
                proof {
                    lemma_concat_map_step(order, f, k as int);
                }
                let ghost h0 = head@;
                let mut row = String::from_str("| ");
                let mut digits = String::new();
                push_dec(&mut digits, (k + 1) as u64);
                assert(digits@ =~= dec((k + 1) as nat));
                push_pad_right(&mut row, digits.as_str(), 3);
                row.append(" | ");
                push_pad_right(&mut row, links[k].as_str(), max_link);
                row.append(" | ");
                match &cus[k] {
                    Some(c) => push_pad_left(&mut row, c.as_str(), max_cu),
                    None => push_pad_left(&mut row, "-", max_cu),
                }
                row.append(" |");
                row.append("\n");
                head.append(row.as_str());
                assert(head@ =~= h0 + f(k as int, order[k as int]));
                k = k + 1;
            }
            head.append("\n");
            out = head;
        } else {
            let ghost f = toc_item_fn(*self);
            let mut k: usize = 0;
            assert(out@ =~= concat_map(order.take(0), f));
            while k < names.len()
                invariant
                    string_views(names@) == order,
                    order == self.section_order(),
                    f == toc_item_fn(*self),
                    k <= names@.len(),
                    links@.len() == names@.len(),
                    forall|j: int| 0 <= j < names@.len() ==> (#[trigger] links@[j])@ == toc_link(*self, order[j]),
                    out@ == concat_map(order.take(k as int), f),
                decreases names@.len() - k,
            {
                proof {
                    lemma_concat_map_step(order, f, k as int);
                }
                let ghost o1 = out@;
                let mut item = String::new();
                push_dec(&mut item, (k + 1) as u64);
                item.append(". ");
                item.append(links[k].as_str());
                item.append("\n");
                out.append(item.as_str());
                assert(out@ =~= o1 + f(k as int, order[k as int]));
                k = k + 1;
            }
            out.append("\n");
        }
        out
    }
}


pub open spec fn entries_max(es: Seq<ProfileEntry>) -> usize
    decreases es.len(),
{
    if es.len() == 0 {
        0
    } else {
        max_usize(entries_max(es.drop_last()), (byte_len(es.last().func_name@) + 2) as usize)
    }
}

pub open spec fn names_entries_max(b: CuBenchmark, names: Seq<Seq<char>>) -> usize
    decreases names.len(),
{
    if names.len() == 0 {
        0
    } else {
        max_usize(
            names_entries_max(b, names.drop_last()),
            entries_max(get_or_empty(b.results_view(), names.last())),
        )
    }
}

/// The width of the function column: the configured one, else two more than
/// the longest function name, at least 8.
pub open spec fn func_width(b: CuBenchmark) -> usize {
    match b.config_view().column_width {
        Some(w) => w,
        None => max_usize(8, names_entries_max(b, b.section_order())),
    }
}

/// A function's cell: a source link when a base URL is configured and the
/// entry has a location, else its name in code style.
pub open spec fn func_display(e: ProfileEntry, base: Seq<char>) -> Seq<char> {
    if base.len() > 0 && e.file_location@.len() > 0 {
        code_link(e.func_name@, e.file_location@, base)
    } else {
        "`"@ + e.func_name@ + "`"@
    }
}

pub open spec fn cu_row_fn(base: Seq<char>, fw: usize) -> spec_fn(int, ProfileEntry) -> Seq<char> {
    |k: int, e: ProfileEntry|
        "| "@ + pad_right(func_display(e, base), fw as nat) + " | "@ + pad_left(
            thousands(e.total_cu as nat),
            10,
        ) + " | "@ + pad_left(thousands(e.net_cu as nat), 10) + " |"@ + "\n"@
}

pub open spec fn cu_table(es: Seq<ProfileEntry>, base: Seq<char>, fw: usize) -> Seq<char> {
    "| "@ + pad_right("Function"@, fw as nat) + " | "@ + pad_left("Total CU"@, 10) + " | "@
        + pad_left("Net CU"@, 10) + " |"@ + "\n"@ + "| "@ + repeat_char('-', fw as nat) + " | "@
        + repeat_char('-', 10) + " | "@ + repeat_char('-', 10) + " |"@ + "\n"@ + concat_map(
        es,
        cu_row_fn(base, fw),
    ) + "\n"@
}

pub open spec fn table_text_fn() -> spec_fn(int, SectionTable) -> Seq<char> {
    |k: int, t: SectionTable| section_table_text(t)
}

/// The body of a section: its CU table when it has entries, then its custom
/// tables; a note when it has neither.
pub open spec fn section_body(es: Seq<ProfileEntry>, ts: Seq<SectionTable>, base: Seq<char>, fw: usize) -> Seq<
    char,
> {
    if es.len() == 0 && ts.len() == 0 {
        "_No profiling data collected._\n\n"@
    } else {
        (if es.len() > 0 {
            cu_table(es, base, fw)
        } else {
            Seq::empty()
        }) + concat_map(ts, table_text_fn())
    }
}

pub open spec fn section_fn(b: CuBenchmark, fw: usize) -> spec_fn(int, Seq<char>) -> Seq<char> {
    |i: int, name: Seq<char>|
        "## "@ + dec((i + 1) as nat) + ". "@ + display_name_of(
            b.config_view().display_name_overrides@,
            name,
        ) + "\n\n"@ + section_body(
            get_or_empty(b.results_view(), name),
            get_or_empty(b.tables_view(), name),
            b.config_view().github_base_url@,
            fw,
        )
}

/// Title, description and regeneration command, when set, then the
/// definitions and the heading of the table of contents.
pub open spec fn header_text(c: ReadmeConfig) -> Seq<char> {
    (if c.title@.len() > 0 {
        "# "@ + c.title@ + "\n\n"@
    } else {
        Seq::empty()
    }) + (if c.description@.len() > 0 {
        c.description@ + "\n\n"@
    } else {
        Seq::empty()
    }) + (match c.regenerate_command {
        Some(cmd) => "Regenerate with `"@ + cmd@ + "`.\n\n"@,
        None => Seq::empty(),
    }) + "## Definitions\n\n"@
        + "- **Total CU**: Compute units consumed by the function including all children\n"@
        + "- **Net CU**: Compute units consumed by the function itself (excluding children)\n\n"@
        + "## Table of Contents\n\n"@
}

/// The markdown report: header, table of contents, then one numbered
/// section per name in `section_order`.
pub open spec fn report_text(b: CuBenchmark) -> Seq<char> {
    header_text(b.config_view()) + toc_text(b) + concat_map(b.section_order(), section_fn(b, func_width(b)))
}

/// What rendering needs of an entry: when links are made, its location can
/// number its next line; when the function column is sized to the names,
/// its name's width fits in `usize`.
pub open spec fn entry_ok(e: ProfileEntry, linked: bool, sized: bool) -> bool {
    &&& linked ==> location_fits(e.file_location@)
    &&& sized ==> byte_len(e.func_name@) + 2 <= usize::MAX
}

/// What rendering needs of the entries of every section.
pub open spec fn report_fits(b: CuBenchmark) -> bool {
    forall|n: Seq<char>, k: int|
        #![trigger b.results_view()[n][k]]
        b.results_view().dom().contains(n) && 0 <= k < b.results_view()[n].len() ==> entry_ok(
            b.results_view()[n][k],
            b.config_view().github_base_url@.len() > 0,
            b.config_view().column_width is None,
        )
}

impl CuBenchmark {
    fn entries_of(&self, name: &String) -> (r: Option<usize>)
        ensures
            match r {
                Some(i) => i < self.results@.len() && get_or_empty(self.results_view(), name@)
                    == self.results@[i as int].1@ && self.results_view().dom().contains(name@),
                None => get_or_empty(self.results_view(), name@) == Seq::<ProfileEntry>::empty()
                    && !self.results_view().dom().contains(name@),
            },
    {
        find_pair(&self.results, name.as_str())
    }

    fn tables_of(&self, name: &String) -> (r: Option<usize>)
        ensures
            match r {
                Some(i) => i < self.tables@.len() && get_or_empty(self.tables_view(), name@)
                    == self.tables@[i as int].1@,
                None => get_or_empty(self.tables_view(), name@) == Seq::<SectionTable>::empty(),
            },
    {
        find_pair(&self.tables, name.as_str())
    }

    fn entries_width(&self, es: &Vec<ProfileEntry>) -> (r: usize)
        requires
            forall|k: int| 0 <= k < es@.len() ==> byte_len(#[trigger] es@[k].func_name@) + 2 <= usize::MAX,
        ensures
            r == entries_max(es@),
    {
        let mut m: usize = 0;
        let mut k: usize = 0;
        assert(es@.take(0) =~= Seq::<ProfileEntry>::empty());
        while k < es.len()
            invariant
                forall|j: int| 0 <= j < es@.len() ==> byte_len(#[trigger] es@[j].func_name@) + 2 <= usize::MAX,
                k <= es@.len(),
                m == entries_max(es@.take(k as int)),
            decreases es@.len() - k,
        {
            assert(es@.take(k + 1).drop_last() =~= es@.take(k as int));
            assert(byte_len(es@[k as int].func_name@) + 2 <= usize::MAX);
            let w = es[k].func_name.as_str().len() + 2;
            if w > m {
                m = w;
            }
            k = k + 1;
        }
        proof {
            lemma_take_all(es@);
        }
        m
    }

    fn func_width_exec(&self, names: &Vec<String>) -> (r: usize)
        requires
            string_views(names@) == self.section_order(),
            report_fits(*self),
        ensures
            r == func_width(*self),
    {
        match self.config.column_width {
            Some(w) => w,
            None => {
                let ghost order = self.section_order();
                let mut m: usize = 0;
                let mut i: usize = 0;
                assert(order.take(0) =~= Seq::<Seq<char>>::empty());
                while i < names.len()
                    invariant
                        string_views(names@) == order,
                        order == self.section_order(),
                        report_fits(*self),
                        self.config_view().column_width is None,
                        i <= names@.len(),
                        m == names_entries_max(*self, order.take(i as int)),
                    decreases names@.len() - i,
                {
                    assert(order[i as int] == names@[i as int]@);
                    assert(order.take(i + 1).drop_last() =~= order.take(i as int));
                    let w = match self.entries_of(&names[i]) {
                        Some(idx) => {
                            let es = &self.results[idx].1;
                            proof {
                                assert forall|k: int| 0 <= k < es@.len() implies byte_len(
                                    #[trigger] es@[k].func_name@,
                                ) + 2 <= usize::MAX by {
                                    assert(self.results_view()[names@[i as int]@][k] == es@[k]);
                                    assert(entry_ok(es@[k], self.config_view().github_base_url@.len() > 0, true));
                                }
                            }
                            self.entries_width(es)
                        },
                        None => 0,
                    };
                    if w > m {
                        m = w;
                    }
                    i = i + 1;
                }
                proof {
                    lemma_take_all(order);
                }
                if m < 8 {
                    8
                } else {
                    m
                }
            },
        }
    }
}


fn push_cu_row(out: &mut String, e: &ProfileEntry, base: &String, fw: usize, k: Ghost<int>)
    requires
        base@.len() > 0 ==> location_fits(e.file_location@),
    ensures
        final(out)@ == old(out)@ + cu_row_fn(base@, fw)(k@, *e),
{
    let display = if !base.as_str().is_empty() && !e.file_location.as_str().is_empty() {
        make_github_link(e.func_name.as_str(), e.file_location.as_str(), base.as_str())
    } else {
        let mut d = String::from_str("`");
        d.append(e.func_name.as_str());
        d.append("`");
        d
    };
    let total = format_thousands(e.total_cu);
    let net = format_thousands(e.net_cu);
    let mut row = String::from_str("| ");
    push_pad_right(&mut row, display.as_str(), fw);
    row.append(" | ");
    push_pad_left(&mut row, total.as_str(), 10);
    row.append(" | ");
    push_pad_left(&mut row, net.as_str(), 10);
    row.append(" |");
    row.append("\n");
    out.append(row.as_str());
}

fn push_cu_table(out: &mut String, es: &Vec<ProfileEntry>, base: &String, fw: usize)
    requires
        forall|k: int|
            0 <= k < es@.len() ==> (base@.len() > 0 ==> location_fits(#[trigger] es@[k].file_location@)),
    ensures
        final(out)@ == old(out)@ + cu_table(es@, base@, fw),
{
    let mut t = String::from_str("| ");
    push_pad_right(&mut t, "Function", fw);
    t.append(" | ");
    push_pad_left(&mut t, "Total CU", 10);
    t.append(" | ");
    push_pad_left(&mut t, "Net CU", 10);
    t.append(" |");
    t.append("\n");
    t.append("| ");
    push_repeat(&mut t, '-', fw);
    t.append(" | ");
    push_repeat(&mut t, '-', 10);
    t.append(" | ");
    push_repeat(&mut t, '-', 10);
    t.append(" |");
    t.append("\n");
    let ghost t0 = t@;
    let ghost f = cu_row_fn(base@, fw);
    let mut k: usize = 0;
    assert(t@ =~= t0 + concat_map(es@.take(0), f));
    while k < es.len()
        invariant
            forall|j: int|
                0 <= j < es@.len() ==> (base@.len() > 0 ==> location_fits(#[trigger] es@[j].file_location@)),
            f == cu_row_fn(base@, fw),
            k <= es@.len(),
            t@ == t0 + concat_map(es@.take(k as int), f),
        decreases es@.len() - k,
    {
        proof {
            lemma_concat_map_step(es@, f, k as int);
            assert(base@.len() > 0 ==> location_fits(es@[k as int].file_location@));
        }
        push_cu_row(&mut t, &es[k], base, fw, Ghost(k as int));
        assert(t@ =~= t0 + concat_map(es@.take(k + 1), f));
        k = k + 1;
    }
    proof {
        lemma_take_all(es@);
    }
    t.append("\n");
    out.append(t.as_str());
}

fn push_tables(out: &mut String, ts: &Vec<SectionTable>)
    ensures
        final(out)@ == old(out)@ + concat_map(ts@, table_text_fn()),
{
    let ghost o0 = out@;
    let ghost f = table_text_fn();
    let mut k: usize = 0;
    assert(out@ =~= o0 + concat_map(ts@.take(0), f));
    while k < ts.len()
        invariant
            f == table_text_fn(),
            k <= ts@.len(),
            out@ == o0 + concat_map(ts@.take(k as int), f),
        decreases ts@.len() - k,
    {
        proof {
            lemma_concat_map_step(ts@, f, k as int);
        }
        let text = write_section_table(&ts[k]);
        out.append(text.as_str());
        assert(out@ =~= o0 + concat_map(ts@.take(k + 1), f));
        k = k + 1;
    }
    proof {
        lemma_take_all(ts@);
    }
}

pub open spec fn entries_ok(es: Seq<ProfileEntry>, linked: bool, sized: bool) -> bool {
    forall|k: int| 0 <= k < es.len() ==> entry_ok(#[trigger] es[k], linked, sized)
}

fn entries_ok_check(es: &Vec<ProfileEntry>, linked: bool, sized: bool) -> (r: bool)
    ensures
        r == entries_ok(es@, linked, sized),
{
    let mut k: usize = 0;
    while k < es.len()
        invariant
            k <= es@.len(),
            forall|j: int| 0 <= j < k ==> entry_ok(#[trigger] es@[j], linked, sized),
        decreases es@.len() - k,
    {
        if linked && !location_fits_check(es[k].file_location.as_str()) {
            return false;
        }
        if sized && es[k].func_name.as_str().len() > usize::MAX - 2 {
            return false;
        }
        k = k + 1;
    }
    true
}

impl CuBenchmark {
    /// Whether `report_markdown` can render this benchmark: `report_fits`
    /// checked.
    pub fn report_fits_check(&self) -> (r: bool)
        ensures
            r == report_fits(*self),
    {
        let names = self.section_names();
        let ghost order = self.section_order();
        let linked = !self.config.github_base_url.as_str().is_empty();
        let sized = self.config.column_width.is_none();
        proof {
            self.lemma_section_order();
        }
        let mut i: usize = 0;
        while i < names.len()
            invariant
                string_views(names@) == order,
                order == self.section_order(),
                linked == (self.config_view().github_base_url@.len() > 0),
                sized == (self.config_view().column_width is None),
                i <= names@.len(),
                forall|j: int| 0 <= j < i ==> entries_ok(get_or_empty(self.results_view(), #[trigger] order[j]), linked, sized),
            decreases names@.len() - i,
        {
            assert(order[i as int] == names@[i as int]@);
            match self.entries_of(&names[i]) {
                Some(idx) => {
                    if !entries_ok_check(&self.results[idx].1, linked, sized) {
                        proof {
                            let es = self.results@[idx as int].1@;
                            let k = choose|k: int| 0 <= k < es.len() && !entry_ok(es[k], linked, sized);
                            assert(self.results_view()[order[i as int]][k] == es[k]);
                        }
                        return false;
                    }
                },
                None => {},
            }
            i = i + 1;
        }
        proof {
            assert forall|n: Seq<char>, k: int|
                #![trigger self.results_view()[n][k]]
                self.results_view().dom().contains(n) && 0 <= k < self.results_view()[n].len() implies entry_ok(
                self.results_view()[n][k],
                linked,
                sized,
            ) by {
                assert(order.contains(n));
                let j = choose|j: int| 0 <= j < order.len() && order[j] == n;
                assert(entries_ok(get_or_empty(self.results_view(), order[j]), linked, sized));
            }
        }
        true
    }

    fn push_section(&self, out: &mut String, i: usize, name: &String, fw: usize)
        requires
            report_fits(*self),
            i < usize::MAX,
        ensures
            final(out)@ == old(out)@ + section_fn(*self, fw)(i as int, name@),
    {
        let display = self.display_name(name.as_str());
        let mut text = String::from_str("## ");
        push_dec(&mut text, (i + 1) as u64);
        text.append(". ");
        text.append(display.as_str());
        text.append("\n\n");
        let es_idx = self.entries_of(name);
        let ts_idx = self.tables_of(name);
        let es_len = match es_idx {
            Some(a) => self.results[a].1.len(),
            None => 0,
        };
        let ts_len = match ts_idx {
            Some(a) => self.tables[a].1.len(),
            None => 0,
        };
        let ghost es = get_or_empty(self.results_view(), name@);
        let ghost ts = get_or_empty(self.tables_view(), name@);
        let ghost t0 = text@;
        if es_len == 0 && ts_len == 0 {
            text.append("_No profiling data collected._\n\n");
        } else {
            match es_idx {
                Some(a) => {
                    if es_len > 0 {
                        let entries = &self.results[a].1;
                        proof {
                            assert forall|k: int|
                                0 <= k < entries@.len() && self.config.github_base_url@.len()
                                    > 0 implies location_fits(
                                #[trigger] entries@[k].file_location@,
                            ) by {
                                assert(self.results_view()[name@][k] == entries@[k]);
                            }
                        }
                        push_cu_table(&mut text, entries, &self.config.github_base_url, fw);
                    } else {
                        assert(text@ =~= t0 + Seq::<char>::empty());
                    }
                },
                None => {
                    assert(text@ =~= t0 + Seq::<char>::empty());
                },
            }
            match ts_idx {
                Some(a) => {
                    push_tables(&mut text, &self.tables[a].1);
                },
                None => {
                    assert(concat_map(ts, table_text_fn()) =~= Seq::<char>::empty());
                    assert(text@ =~= text@ + concat_map(ts, table_text_fn()));
                },
            }
        }
        assert(text@ =~= t0 + section_body(es, ts, self.config_view().github_base_url@, fw));
        out.append(text.as_str());
    }

    /// Renders the markdown report: the text that `generate` writes to
    /// `config.output_path`.
    pub fn report_markdown(&self) -> (r: String)
        requires
            report_fits(*self),
        ensures
            r@ == report_text(*self),
    {
        let mut f = String::new();
        if !self.config.title.as_str().is_empty() {
            f.append("# ");
            f.append(self.config.title.as_str());
            f.append("\n\n");
        }
        let ghost p1 = f@;
        if !self.config.description.as_str().is_empty() {
            f.append(self.config.description.as_str());
            f.append("\n\n");
        }
        let ghost p2 = f@;
        match &self.config.regenerate_command {
            Some(cmd) => {
                f.append("Regenerate with `");
                f.append(cmd.as_str());
                f.append("`.\n\n");
            },
            None => {},
        }
        let ghost p3 = f@;
        f.append("## Definitions\n\n");
        f.append("- **Total CU**: Compute units consumed by the function including all children\n");
        f.append("- **Net CU**: Compute units consumed by the function itself (excluding children)\n\n");
        f.append("## Table of Contents\n\n");
        assert(f@ =~= header_text(self.config_view()));
        let toc = self.write_toc();
        f.append(toc.as_str());
        let names = self.section_names();
        let fw = self.func_width_exec(&names);
        let ghost order = self.section_order();
        let ghost g = section_fn(*self, fw);
        let ghost f0 = f@;
        let mut i: usize = 0;
        assert(f@ =~= f0 + concat_map(order.take(0), g));
        while i < names.len()
            invariant
                report_fits(*self),
                string_views(names@) == order,
                order == self.section_order(),
                g == section_fn(*self, fw),
                i <= names@.len(),
                f@ == f0 + concat_map(order.take(i as int), g),
            decreases names@.len() - i,
        {
            proof {
                lemma_concat_map_step(order, g, i as int);
                assert(order[i as int] == names@[i as int]@);
            }
            self.push_section(&mut f, i, &names[i], fw);
            assert(f@ =~= f0 + concat_map(order.take(i + 1), g));
            i = i + 1;
        }
        proof {
            lemma_take_all(order);
        }
        f
    }
}


// ---------------------------------------------------------------------------
// Laws of log parsing and section text
// ---------------------------------------------------------------------------

/// Parsing goes log by log: the entries of two lists of logs one after the
/// other are the entries of the first followed by those of the second.
pub proof fn lemma_parse_logs_append(a: Seq<String>, b: Seq<String>)
    ensures
        parse_logs(a + b) == parse_logs(a) + parse_logs(b),
    decreases b.len(),
{
    if b.len() == 0 {
        assert(a + b =~= a);
        assert(parse_logs(a) + parse_logs(b) =~= parse_logs(a));
    } else {
        assert((a + b).drop_last() =~= a + b.drop_last());
        assert((a + b).last() == b.last());
        lemma_parse_logs_append(a, b.drop_last());
        match parse_log(b.last()@) {
            Some(e) => {
                assert(parse_logs(a) + parse_logs(b.drop_last()).push(e) =~= (parse_logs(a)
                    + parse_logs(b.drop_last())).push(e));
            },
            None => {},
        }
    }
}

/// A log line that is not a profiling line contributes nothing and does not
/// affect the lines around it; a profiling line contributes at most its one
/// entry.
pub proof fn lemma_parse_logs_skip(a: Seq<String>, log: String, b: Seq<String>)
    ensures
        !starts_with(log@, "Program log: #"@) ==> parse_logs(a + seq![log] + b) == parse_logs(a)
            + parse_logs(b),
        parse_logs(a + seq![log] + b) == parse_logs(a) + (match parse_log(log@) {
            Some(e) => seq![e],
            None => Seq::empty(),
        }) + parse_logs(b),
{
    lemma_parse_logs_append(a + seq![log], b);
    lemma_parse_logs_append(a, seq![log]);
    let one = seq![log];
    assert(one.drop_last() =~= Seq::<String>::empty());
    assert(parse_logs(Seq::<String>::empty()) =~= Seq::<(Seq<char>, Seq<char>, u64, u64)>::empty());
    assert(parse_logs(one.drop_last()) =~= Seq::<(Seq<char>, Seq<char>, u64, u64)>::empty());
    assert(one.last() == log);
    match parse_log(log@) {
        Some(e) => {
            assert(parse_logs(one) =~= seq![e]);
        },
        None => {
            assert(parse_logs(one) =~= Seq::<(Seq<char>, Seq<char>, u64, u64)>::empty());
            assert(parse_logs(a) + parse_logs(one) =~= parse_logs(a));
        },
    }
    assert(parse_logs(a) + Seq::<(Seq<char>, Seq<char>, u64, u64)>::empty() =~= parse_logs(a));
}

/// Adding a table to a section appends the table's text to the section's
/// body, after everything already there; a section that had nothing becomes
/// just that table.
pub proof fn lemma_section_body_push(
    es: Seq<ProfileEntry>,
    ts: Seq<SectionTable>,
    t: SectionTable,
    base: Seq<char>,
    fw: usize,
)
    ensures
        section_body(es, ts.push(t), base, fw) == (if es.len() == 0 && ts.len() == 0 {
            Seq::empty()
        } else {
            section_body(es, ts, base, fw)
        }) + section_table_text(t),
{
    lemma_concat_map_push(ts, table_text_fn(), t);
    let cu = if es.len() > 0 {
        cu_table(es, base, fw)
    } else {
        Seq::<char>::empty()
    };
    if es.len() == 0 && ts.len() == 0 {
        assert(concat_map(ts, table_text_fn()) =~= Seq::<char>::empty());
        assert(cu + (Seq::<char>::empty() + section_table_text(t)) =~= Seq::<char>::empty()
            + section_table_text(t));
    } else {
        assert(cu + (concat_map(ts, table_text_fn()) + section_table_text(t)) =~= (cu + concat_map(
            ts,
            table_text_fn(),
        )) + section_table_text(t));
    }
}

/// Each entry of a section gets exactly one row of its CU table, in order:
/// adding an entry adds its row after the rows already there.
pub proof fn lemma_cu_table_rows(es: Seq<ProfileEntry>, e: ProfileEntry, base: Seq<char>, fw: usize)
    ensures
        cu_table(es.push(e), base, fw) == cu_table(es, base, fw).drop_last() + cu_row_fn(base, fw)(
            es.len() as int,
            e,
        ) + "\n"@,
{
    let f = cu_row_fn(base, fw);
    lemma_concat_map_push(es, f, e);
    reveal_strlit("\n");
    let h = "| "@ + pad_right("Function"@, fw as nat) + " | "@ + pad_left("Total CU"@, 10) + " | "@
        + pad_left("Net CU"@, 10) + " |"@ + "\n"@ + "| "@ + repeat_char('-', fw as nat) + " | "@
        + repeat_char('-', 10) + " | "@ + repeat_char('-', 10) + " |"@ + "\n"@;
    let r = concat_map(es, f);
    assert(cu_table(es, base, fw) == h + r + "\n"@);
    assert((h + r + "\n"@).drop_last() =~= h + r);
    assert(cu_table(es.push(e), base, fw) =~= h + r + f(es.len() as int, e) + "\n"@);
}

impl CuBenchmark {
    /// The section of a name renders its tables in the order they were
    /// added: after a table is added under `name`, the body of `name`'s
    /// section is what it was, followed by that table's text.
    pub proof fn lemma_add_table_text(&self, after: CuBenchmark, name: Seq<char>, table: SectionTable, fw: usize)
        requires
            after.config_view() == self.config_view(),
            after.results_view() == self.results_view(),
            after.tables_view() == self.tables_view().insert(
                name,
                get_or_empty(self.tables_view(), name).push(table),
            ),
        ensures
            ({
                let es = get_or_empty(self.results_view(), name);
                let ts = get_or_empty(self.tables_view(), name);
                let base = self.config_view().github_base_url@;
                section_body(
                    get_or_empty(after.results_view(), name),
                    get_or_empty(after.tables_view(), name),
                    base,
                    fw,
                ) == (if es.len() == 0 && ts.len() == 0 {
                    Seq::empty()
                } else {
                    section_body(es, ts, base, fw)
                }) + section_table_text(table)
            }),
    {
        assert(after.tables_view().dom().contains(name));
        lemma_section_body_push(
            get_or_empty(self.results_view(), name),
            get_or_empty(self.tables_view(), name),
            table,
            self.config_view().github_base_url@,
            fw,
        );
    }
}

} // verus!
