//! Reading the reference records from their delimited text form.
//!
//! A line holds comma-separated fields; double quotes group a field that
//! holds commas, and a doubled quote inside them stands for one quote. A
//! list-valued field is written `['a', 'b']`.
use vstd::prelude::*;
use crate::text::{trim, trimmed, chars_of, string_of, is_digit, digit_value};
use crate::parser::{EntityRecord, EntityResult};

verus! {

/// The views of a sequence of strings.
pub open spec fn views(v: Seq<String>) -> Seq<Seq<char>> {
    v.map_values(|s: String| s@)
}

/// The fields of `line` from position `i` on, given the fields already
/// closed, the field being read and whether a quote is open.
pub open spec fn csv_scan(
    line: Seq<char>,
    i: int,
    fields: Seq<Seq<char>>,
    cur: Seq<char>,
    in_quotes: bool,
) -> Seq<Seq<char>>
    decreases line.len() - i,
{
    if i < 0 || i >= line.len() {
        fields.push(trim(cur))
    } else if line[i] == '"' {
        if in_quotes && i + 1 < line.len() && line[i + 1] == '"' {
            csv_scan(line, i + 2, fields, cur.push('"'), in_quotes)
        } else {
            csv_scan(line, i + 1, fields, cur, !in_quotes)
        }
    } else if line[i] == ',' && !in_quotes {
        csv_scan(line, i + 1, fields.push(trim(cur)), Seq::empty(), in_quotes)
    } else {
        csv_scan(line, i + 1, fields, cur.push(line[i]), in_quotes)
    }
}

/// The trimmed fields of a delimited line.
pub open spec fn csv_fields(line: Seq<char>) -> Seq<Seq<char>> {
    csv_scan(line, 0, Seq::empty(), Seq::empty(), false)
}

/// Splits one delimited line into its trimmed fields.
pub fn parse_csv_line(line: &str) -> (r: Vec<String>)
    ensures
        views(r@) == csv_fields(line@),
{
    let chars = chars_of(line);
    let n = chars.len();
    let mut fields: Vec<String> = Vec::new();
    let mut current: Vec<char> = Vec::new();
    let mut in_quotes = false;
    let mut i: usize = 0;
    assert(views(fields@) =~= Seq::<Seq<char>>::empty());
    assert(current@ =~= Seq::<char>::empty());
    while i < n
        invariant
            n == chars@.len(),
            chars@ == line@,
            i <= n,
            csv_fields(line@) == csv_scan(line@, i as int, views(fields@), current@, in_quotes),
        decreases n - i,
    {
        let ch = chars[i];
        if ch == '"' {
            if in_quotes && i + 1 < n && chars[i + 1] == '"' {
                current.push('"');
                i = i + 2;
            } else {
                in_quotes = !in_quotes;
                i = i + 1;
            }
        } else if ch == ',' && !in_quotes {
            let f = trimmed(&current, 0, current.len());
            assert(current@.subrange(0, current@.len() as int) =~= current@);
            let ghost before = views(fields@);
            fields.push(f);
            assert(views(fields@) =~= before.push(trim(current@)));
            current = Vec::new();
            i = i + 1;
        } else {
            current.push(ch);
            i = i + 1;
        }
    }
    let f = trimmed(&current, 0, current.len());
    assert(current@.subrange(0, current@.len() as int) =~= current@);
    let ghost before = views(fields@);
    fields.push(f);
    assert(views(fields@) =~= before.push(trim(current@)));
    fields
}

/// The pieces of `s` from position `i` on between occurrences of `", "`,
/// given the piece being read.
pub open spec fn split_scan(s: Seq<char>, i: int, cur: Seq<char>) -> Seq<Seq<char>>
    decreases s.len() - i,
{
    if i < 0 || i >= s.len() {
        seq![cur]
    } else if i + 1 < s.len() && s[i] == ',' && s[i + 1] == ' ' {
        seq![cur] + split_scan(s, i + 2, Seq::empty())
    } else {
        split_scan(s, i + 1, cur.push(s[i]))
    }
}

/// An item without the single or double quotes around it.
pub open spec fn unquote(item: Seq<char>) -> Seq<char> {
    if item.len() >= 2 && ((item[0] == '\'' && item.last() == '\'') || (item[0] == '"'
        && item.last() == '"')) {
        item.subrange(1, item.len() - 1)
    } else {
        item
    }
}

/// The items of a bracketed list `['a', 'b']`; none for text that is not one.
pub open spec fn python_list(s: Seq<char>) -> Seq<Seq<char>> {
    if s.len() >= 2 && s[0] == '[' && s.last() == ']' {
        if s.len() == 2 {
            Seq::empty()
        } else {
            split_scan(s.subrange(1, s.len() - 1), 0, Seq::empty()).map_values(
                |item: Seq<char>| unquote(trim(item)),
            )
        }
    } else {
        Seq::empty()
    }
}

/// An item, trimmed and unquoted, from the characters `a..b` of `v`.
fn list_item(v: &Vec<char>, a: usize, b: usize) -> (r: String)
    requires
        a <= b <= v@.len(),
    ensures
        r@ == unquote(trim(v@.subrange(a as int, b as int))),
{
    let t = trimmed(v, a, b);
    let tc = chars_of(t.as_str());
    let m = tc.len();
    if m >= 2 && ((tc[0] == '\'' && tc[m - 1] == '\'') || (tc[0] == '"' && tc[m - 1] == '"')) {
        string_of(&tc, 1, m - 1)
    } else {
        t
    }
}

/// Reads a bracketed list `['a', 'b']` into its items; text that is not
/// such a list gives none.
pub fn parse_python_list(s: &str) -> (r: Vec<String>)
    ensures
        views(r@) == python_list(s@),
{
    let chars = chars_of(s);
    let n = chars.len();
    let mut items: Vec<String> = Vec::new();
    if !(n >= 2 && chars[0] == '[' && chars[n - 1] == ']') {
        assert(views(items@) =~= python_list(s@));
        return items;
    }
    if n == 2 {
        assert(views(items@) =~= python_list(s@));
        return items;
    }
    let ghost inner = s@.subrange(1, n - 1);
    let ghost pieces = split_scan(inner, 0, Seq::empty());
    let end: usize = n - 1;
    let mut start: usize = 1;
    let mut i: usize = 1;
    assert(views(items@) =~= Seq::<Seq<char>>::empty());
    assert(chars@.subrange(1, 1) =~= Seq::<char>::empty());
    assert(pieces.map_values(|item: Seq<char>| unquote(trim(item))) =~= views(items@)
        + split_scan(inner, 0, chars@.subrange(1, 1)).map_values(|item: Seq<char>| unquote(trim(item))));
    while i < end
        invariant
            chars@ == s@,
            n == chars@.len(),
            end == n - 1,
            1 <= start <= i <= end,
            inner == s@.subrange(1, n - 1),
            pieces == split_scan(inner, 0, Seq::empty()),
            pieces.map_values(|item: Seq<char>| unquote(trim(item))) == views(items@)
                + split_scan(inner, i - 1, chars@.subrange(start as int, i as int)).map_values(
                |item: Seq<char>| unquote(trim(item)),
            ),
        decreases end - i,
    {
        if i + 1 < end && chars[i] == ',' && chars[i + 1] == ' ' {
            let item = list_item(&chars, start, i);
            let ghost before = views(items@);
            let ghost cur = chars@.subrange(start as int, i as int);
            let ghost rest = split_scan(inner, i + 1, Seq::empty());
            assert(inner[i - 1] == ',' && inner[i as int] == ' ');
            assert(split_scan(inner, i - 1, cur) == seq![cur] + rest);
            assert((seq![cur] + rest).map_values(|item: Seq<char>| unquote(trim(item))) =~= seq![
                unquote(trim(cur)),
            ] + rest.map_values(|item: Seq<char>| unquote(trim(item))));
            items.push(item);
            assert(views(items@) =~= before.push(unquote(trim(cur))));
            assert(chars@.subrange(i + 2, i + 2) =~= Seq::<char>::empty());
            start = i + 2;
            i = i + 2;
        } else {
            let ghost cur = chars@.subrange(start as int, i as int);
            assert(inner[i - 1] == chars@[i as int]);
            assert(cur.push(inner[i - 1]) =~= chars@.subrange(start as int, i + 1));
            i = i + 1;
        }
    }
    let item = list_item(&chars, start, end);
    let ghost before = views(items@);
    let ghost cur = chars@.subrange(start as int, end as int);
    assert(split_scan(inner, i - 1, cur) == seq![cur]);
    items.push(item);
    assert(views(items@) =~= before.push(unquote(trim(cur))));
    assert(seq![cur].map_values(|item: Seq<char>| unquote(trim(item))) =~= seq![unquote(trim(cur))]);
    assert(views(items@) =~= before + seq![cur].map_values(|item: Seq<char>| unquote(trim(item))));
    items
}

/// `s` with each occurrence of `pat` from position `i` on, scanning left to
/// right, replaced by `rep`.
pub open spec fn replace_scan(s: Seq<char>, pat: Seq<char>, rep: Seq<char>, i: int) -> Seq<char>
    decreases s.len() - i,
{
    if i < 0 || i >= s.len() {
        Seq::empty()
    } else if pat.len() > 0 && i + pat.len() <= s.len() && s.subrange(i, i + pat.len()) == pat {
        rep + replace_scan(s, pat, rep, i + pat.len())
    } else {
        seq![s[i]] + replace_scan(s, pat, rep, i + 1)
    }
}

/// `s` with every occurrence of `pat` replaced by `rep`.
pub open spec fn replace_all(s: Seq<char>, pat: Seq<char>, rep: Seq<char>) -> Seq<char> {
    replace_scan(s, pat, rep, 0)
}

/// Whether `p` stands in `s` at position `i`.
fn occurs_at(s: &Vec<char>, i: usize, p: &Vec<char>) -> (r: bool)
    requires
        i + p@.len() <= s@.len(),
    ensures
        r == (s@.subrange(i as int, i + p@.len()) == p@),
{
    let sn = s.len();
    let mut k: usize = 0;
    while k < p.len()
        invariant
            sn == s@.len(),
            i + p@.len() <= s@.len(),
            k <= p@.len(),
            forall|j: int| 0 <= j < k ==> s@[i + j] == p@[j],
        decreases p.len() - k,
    {
        if s[i + k] != p[k] {
            assert(s@.subrange(i as int, i + p@.len())[k as int] != p@[k as int]);
            return false;
        }
        k = k + 1;
    }
    assert(s@.subrange(i as int, i + p@.len()) =~= p@);
    true
}

/// Replaces every occurrence of `pat` in `s` by `rep`, left to right.
pub fn replace_text(s: &str, pat: &str, rep: &str) -> (r: String)
    ensures
        r@ == replace_all(s@, pat@, rep@),
{
    let sc = chars_of(s);
    let pc = chars_of(pat);
    let n = sc.len();
    let m = pc.len();
    let mut out = String::new();
    let mut i: usize = 0;
    while i < n
        invariant
            sc@ == s@,
            pc@ == pat@,
            n == s@.len(),
            m == pat@.len(),
            i <= n,
            replace_all(s@, pat@, rep@) == out@ + replace_scan(s@, pat@, rep@, i as int),
        decreases n - i,
    {
        let ghost before = out@;
        if m > 0 && m <= n - i && occurs_at(&sc, i, &pc) {
            out.append(rep);
            assert(before + replace_scan(s@, pat@, rep@, i as int) =~= out@ + replace_scan(
                s@,
                pat@,
                rep@,
                i + m,
            ));
            i = i + m;
        } else {
            out.push(sc[i]);
            assert(before + replace_scan(s@, pat@, rep@, i as int) =~= out@ + replace_scan(
                s@,
                pat@,
                rep@,
                i + 1,
            ));
            i = i + 1;
        }
    }
    assert(out@ + replace_scan(s@, pat@, rep@, i as int) =~= out@);
    out
}

/// The strict form of a loose pattern: the optional separator becomes a
/// mandatory hyphen and the optional tail before the end anchor mandatory.
pub open spec fn strict_pattern(p: Seq<char>) -> Seq<char> {
    replace_all(replace_all(p, "-{0,1}"@, "\\-"@), "{0,1}$"@, "$"@)
}

/// Derives the strict pattern of a loose one.
pub fn strict_regex_of(pattern: &str) -> (r: String)
    ensures
        r@ == strict_pattern(pattern@),
{
    let once = replace_text(pattern, "-{0,1}", "\\-");
    replace_text(once.as_str(), "{0,1}$", "$")
}

/// The value of a string of decimal digits.
pub open spec fn decimal_value(ds: Seq<char>) -> int
    decreases ds.len(),
{
    if ds.len() == 0 {
        0
    } else {
        decimal_value(ds.drop_last()) * 10 + digit_value(ds.last())
    }
}

/// The length of the sign in front of a decimal number: 1 for `-` or `+`.
pub open spec fn sign_len(s: Seq<char>) -> int {
    if s.len() > 0 && (s[0] == '-' || s[0] == '+') {
        1
    } else {
        0
    }
}

/// The digits of a decimal number, after its sign.
pub open spec fn digits_part(s: Seq<char>) -> Seq<char> {
    s.subrange(sign_len(s), s.len() as int)
}

/// The `i32` that `s` writes in decimal, with an optional sign, if it is one.
pub open spec fn i32_of(s: Seq<char>) -> Option<i32> {
    let ds = digits_part(s);
    let v = if s.len() > 0 && s[0] == '-' {
        -decimal_value(ds)
    } else {
        decimal_value(ds)
    };
    if ds.len() == 0 || exists|k: int| 0 <= k < ds.len() && !is_digit(#[trigger] ds[k]) {
        None
    } else if i32::MIN <= v <= i32::MAX {
        Some(v as i32)
    } else {
        None
    }
}

/// The priority written in a field; 0 where it is not an `i32`.
pub open spec fn priority_of(s: Seq<char>) -> i32 {
    match i32_of(s) {
        Some(v) => v,
        None => 0,
    }
}

/// Reads a priority field: a decimal `i32`, or 0 where the field is not one.
pub fn parse_priority(s: &str) -> (r: i32)
    ensures
        r == priority_of(s@),
{
    let c = chars_of(s);
    let n = c.len();
    let neg = n > 0 && c[0] == '-';
    let start: usize = if n > 0 && (c[0] == '-' || c[0] == '+') { 1 } else { 0 };
    let ghost ds = digits_part(s@);
    if start >= n {
        return 0;
    }
    let mut acc: i64 = 0;
    let mut saturated = false;
    let mut i: usize = start;
    assert(ds.subrange(0, 0) =~= Seq::<char>::empty());
    assert(ds =~= s@.subrange(start as int, n as int));
    while i < n
        invariant
            c@ == s@,
            n == s@.len(),
            start <= i <= n,
            start <= 1,
            ds == s@.subrange(start as int, n as int),
            ds == digits_part(s@),
            neg == (s@.len() > 0 && s@[0] == '-'),
            forall|k: int| 0 <= k < i - start ==> is_digit(#[trigger] ds[k]),
            saturated ==> decimal_value(ds.subrange(0, i - start)) > 2147483648,
            !saturated ==> 0 <= acc <= 2147483648 && acc == decimal_value(ds.subrange(0, i - start)),
        decreases n - i,
    {
        let ch = c[i];
        assert(ds[i - start] == ch);
        let code = ch as u32;
        if !(48 <= code && code <= 57) {
            assert(!is_digit(ds[i - start]));

            return 0;
        }
        let d = (code - 48) as i64;
        let ghost pre = ds.subrange(0, i - start);
        assert(ds.subrange(0, i + 1 - start).drop_last() =~= pre);
        assert(ds.subrange(0, i + 1 - start).last() == ch);
        if !saturated {
            acc = acc * 10 + d;
            if acc > 2147483648 {
                saturated = true;
            }
        }
        i = i + 1;
    }
    assert(ds.subrange(0, n - start) =~= ds);
    if saturated {
        return 0;
    }
    if neg {
        (0 - acc) as i32
    } else if acc > 2147483647 {
        0
    } else {
        acc as i32
    }
}

/// A line without the carriage return of a `\r\n` ending.
pub open spec fn strip_cr(l: Seq<char>) -> Seq<char> {
    if l.len() > 0 && l.last() == '\r' {
        l.drop_last()
    } else {
        l
    }
}

/// The lines of `s` from position `i` on, given the line being read. The
/// last line needs no line ending.
pub open spec fn lines_scan(s: Seq<char>, i: int, cur: Seq<char>) -> Seq<Seq<char>>
    decreases s.len() - i,
{
    if i < 0 || i >= s.len() {
        if cur.len() == 0 {
            Seq::empty()
        } else {
            seq![cur]
        }
    } else if s[i] == '\n' {
        seq![strip_cr(cur)] + lines_scan(s, i + 1, Seq::empty())
    } else {
        lines_scan(s, i + 1, cur.push(s[i]))
    }
}

/// The lines of a text.
pub open spec fn lines_of(s: Seq<char>) -> Seq<Seq<char>> {
    lines_scan(s, 0, Seq::empty())
}

/// Splits a text into lines, at `\n` or `\r\n`.
pub fn text_lines(s: &str) -> (r: Vec<String>)
    ensures
        views(r@) == lines_of(s@),
{
    let c = chars_of(s);
    let n = c.len();
    let mut lines: Vec<String> = Vec::new();
    let mut start: usize = 0;
    let mut i: usize = 0;
    assert(views(lines@) =~= Seq::<Seq<char>>::empty());
    assert(c@.subrange(0, 0) =~= Seq::<char>::empty());
    while i < n
        invariant
            c@ == s@,
            n == s@.len(),
            start <= i <= n,
            lines_of(s@) == views(lines@) + lines_scan(s@, i as int, c@.subrange(start as int, i as int)),
        decreases n - i,
    {
        let ghost cur = c@.subrange(start as int, i as int);
        if c[i] == '\n' {
            let end = if i > start && c[i - 1] == '\r' { i - 1 } else { i };
            let line = string_of(&c, start, end);
            assert(line@ == strip_cr(cur)) by {
                if i > start && c@[i - 1] == '\r' {
                    assert(cur.drop_last() =~= c@.subrange(start as int, i - 1));
                }
                else {
                    assert(c@.subrange(start as int, end as int) =~= cur);
                }
            }
            let ghost before = views(lines@);
            lines.push(line);
            assert(views(lines@) =~= before.push(strip_cr(cur)));
            assert(c@.subrange(i + 1, i + 1) =~= Seq::<char>::empty());
            assert(views(lines@) + lines_scan(s@, i + 1, c@.subrange(i + 1, i + 1)) =~= before + (
            seq![strip_cr(cur)] + lines_scan(s@, i + 1, Seq::empty())));
            start = i + 1;
        } else {
            assert(cur.push(c@[i as int]) =~= c@.subrange(start as int, i + 1));
        }
        i = i + 1;
    }
    let ghost cur = c@.subrange(start as int, n as int);
    if start < n {
        let line = string_of(&c, start, n);
        let ghost before = views(lines@);
        lines.push(line);
        assert(views(lines@) =~= before + seq![cur]);
    } else {
        assert(views(lines@) + lines_scan(s@, i as int, cur) =~= views(lines@));
    }
    lines
}

/// The field rows of a table text among its first `k` lines: the header line
/// is skipped, and so are blank lines and rows of fewer than `width` fields.
pub open spec fn rows_upto(lines: Seq<Seq<char>>, k: int, width: int) -> Seq<Seq<Seq<char>>>
    decreases k,
{
    if k <= 1 {
        Seq::empty()
    } else {
        let prev = rows_upto(lines, k - 1, width);
        let l = lines[k - 1];
        if trim(l).len() > 0 && csv_fields(l).len() >= width {
            prev.push(csv_fields(l))
        } else {
            prev
        }
    }
}

/// The field rows of a table text.
pub open spec fn table_rows(text: Seq<char>, width: int) -> Seq<Seq<Seq<char>>> {
    rows_upto(lines_of(text), lines_of(text).len() as int, width)
}

/// Item `k` of a list, or nothing where the list is shorter.
pub open spec fn item_or_empty(items: Seq<Seq<char>>, k: int) -> Seq<char> {
    if 0 <= k < items.len() {
        items[k]
    } else {
        Seq::empty()
    }
}

/// `rec` is the record of a state read from the fields `f`: nation,
/// description, priority, ISO codes, callsigns, .., pattern, .., .., ICAO prefixes.
pub open spec fn is_country_record(rec: EntityRecord, f: Seq<Seq<char>>) -> bool {
    &&& rec.entity_result matches EntityResult::Country { nation, description, iso2, iso3 }
        && nation@ == f[0] && description@ == f[1] && iso2@ == item_or_empty(python_list(f[3]), 0)
        && iso3@ == item_or_empty(python_list(f[3]), 1)
    &&& rec.priority == priority_of(f[2])
    &&& views(rec.callsigns@) == python_list(f[4])
    &&& rec.regex@ == f[6]
    &&& rec.strict_regex@ == strict_pattern(f[6])
    &&& views(rec.icao24bit_prefixes@) == python_list(f[9])
}

/// `rec` is the record of an organization read from the fields `f`: name,
/// description, priority, callsigns, .., pattern, .., .., ICAO prefixes.
pub open spec fn is_organization_record(rec: EntityRecord, f: Seq<Seq<char>>) -> bool {
    &&& rec.entity_result matches EntityResult::Organization { name, description }
        && name@ == f[0] && description@ == f[1]
    &&& rec.priority == priority_of(f[2])
    &&& views(rec.callsigns@) == python_list(f[3])
    &&& rec.regex@ == f[5]
    &&& rec.strict_regex@ == strict_pattern(f[5])
    &&& views(rec.icao24bit_prefixes@) == python_list(f[8])
}

/// Item `k` of a list, or an empty string where the list is shorter.
fn item_or_new(items: &Vec<String>, k: usize) -> (r: String)
    ensures
        r@ == item_or_empty(views(items@), k as int),
{
    if k < items.len() {
        items[k].clone()
    } else {
        String::new()
    }
}

fn country_record(f: &Vec<String>) -> (r: EntityRecord)
    requires
        f@.len() >= 10,
    ensures
        is_country_record(r, views(f@)),
{
    let iso = parse_python_list(f[3].as_str());
    let regex = f[6].clone();
    let strict_regex = strict_regex_of(regex.as_str());
    EntityRecord {
        entity_result: EntityResult::Country {
            nation: f[0].clone(),
            description: f[1].clone(),
            iso2: item_or_new(&iso, 0),
            iso3: item_or_new(&iso, 1),
        },
        priority: parse_priority(f[2].as_str()),
        callsigns: parse_python_list(f[4].as_str()),
        regex,
        strict_regex,
        icao24bit_prefixes: parse_python_list(f[9].as_str()),
    }
}

fn organization_record(f: &Vec<String>) -> (r: EntityRecord)
    requires
        f@.len() >= 9,
    ensures
        is_organization_record(r, views(f@)),
{
    let regex = f[5].clone();
    let strict_regex = strict_regex_of(regex.as_str());
    EntityRecord {
        entity_result: EntityResult::Organization {
            name: f[0].clone(),
            description: f[1].clone(),
        },
        priority: parse_priority(f[2].as_str()),
        callsigns: parse_python_list(f[3].as_str()),
        regex,
        strict_regex,
        icao24bit_prefixes: parse_python_list(f[8].as_str()),
    }
}

/// Appends the records of a table text: of states where `countries`, else
/// of organizations.
fn push_table_records(text: &str, countries: bool, out: &mut Vec<EntityRecord>)
    ensures
        final(out)@.len() == old(out)@.len() + table_rows(text@, if countries { 10 } else { 9 }).len(),
        forall|k: int| 0 <= k < old(out)@.len() ==> final(out)@[k] == old(out)@[k],
        forall|k: int|
            0 <= k < table_rows(text@, if countries { 10 } else { 9 }).len() ==> if countries {
                is_country_record(
                    #[trigger] final(out)@[old(out)@.len() + k],
                    table_rows(text@, 10)[k],
                )
            } else {
                is_organization_record(
                    #[trigger] final(out)@[old(out)@.len() + k],
                    table_rows(text@, 9)[k],
                )
            },
{
    let width: usize = if countries { 10 } else { 9 };
    let lines = text_lines(text);
    let ghost ls = views(lines@);
    let ghost base = old(out)@;
    let mut i: usize = 1;
    if lines.len() == 0 {
        return;
    }
    while i < lines.len()
        invariant
            1 <= i <= lines@.len(),
            ls == views(lines@),
            ls == lines_of(text@),
            width == (if countries { 10int } else { 9int }),
            out@.len() == base.len() + rows_upto(ls, i as int, width as int).len(),
            forall|k: int| 0 <= k < base.len() ==> out@[k] == base[k],
            forall|k: int|
                0 <= k < rows_upto(ls, i as int, width as int).len() ==> if countries {
                    is_country_record(#[trigger] out@[base.len() + k], rows_upto(ls, i as int, width as int)[k])
                } else {
                    is_organization_record(#[trigger] out@[base.len() + k], rows_upto(ls, i as int, width as int)[k])
                },
        decreases lines.len() - i,
    {
        let lc = chars_of(lines[i].as_str());
        let t = trimmed(&lc, 0, lc.len());
        assert(lc@.subrange(0, lc@.len() as int) =~= ls[i as int]);
        if t.as_str().unicode_len() > 0 {
            let fields = parse_csv_line(lines[i].as_str());
            if fields.len() >= width {
                let rec = if countries {
                    country_record(&fields)
                } else {
                    organization_record(&fields)
                };
                out.push(rec);
            }
        }
        i = i + 1;
    }
}

/// Reads the records of a table of states and a table of organizations,
/// states first, each in the order of its lines.
pub fn build_records(countries_csv: &str, organizations_csv: &str) -> (r: Vec<EntityRecord>)
    ensures
        is_loaded_from(r@, countries_csv@, organizations_csv@),
        r@.len() == table_rows(countries_csv@, 10).len() + table_rows(organizations_csv@, 9).len(),
        forall|k: int|
            0 <= k < table_rows(countries_csv@, 10).len() ==> is_country_record(
                #[trigger] r@[k],
                table_rows(countries_csv@, 10)[k],
            ),
        forall|k: int|
            0 <= k < table_rows(organizations_csv@, 9).len() ==> is_organization_record(
                #[trigger] r@[table_rows(countries_csv@, 10).len() + k],
                table_rows(organizations_csv@, 9)[k],
            ),
{
    let mut all: Vec<EntityRecord> = Vec::new();
    push_table_records(countries_csv, true, &mut all);
    let ghost first = all@;
    push_table_records(organizations_csv, false, &mut all);
    assert forall|k: int| 0 <= k < table_rows(countries_csv@, 10).len() implies is_country_record(
        #[trigger] all@[k],
        table_rows(countries_csv@, 10)[k],
    ) by {
        assert(all@[k] == first[0 + k]);
    }
    all
}

/// `records` are the records of the two tables, states first.
pub open spec fn is_loaded_from(records: Seq<EntityRecord>, countries: Seq<char>, organizations: Seq<char>) -> bool {
    &&& records.len() == table_rows(countries, 10).len() + table_rows(organizations, 9).len()
    &&& forall|k: int|
        0 <= k < table_rows(countries, 10).len() ==> is_country_record(
            #[trigger] records[k],
            table_rows(countries, 10)[k],
        )
    &&& forall|k: int|
        0 <= k < table_rows(organizations, 9).len() ==> is_organization_record(
            #[trigger] records[table_rows(countries, 10).len() + k],
            table_rows(organizations, 9)[k],
        )
}

/// The built-in table of states.
pub const COUNTRIES_CSV: &'static str = "nation,description,priority,iso codes,callsigns,suffixes,regex,icao24bit_prefix_start,icao24bit_prefix_end,icao24bit_prefixes
Afghanistan,general,0,\"['AF', 'AFG']\",\"['T6', 'YA']\",['AAA-ZZZ'],\"^(T6|YA)(-{0,1}([A-Z]{3}|[A-Z0-9]{1,4})){0,1}$\",700000,700FFF,['700']
";

/// The built-in table of international organizations.
pub const ORGANIZATIONS_CSV: &'static str = "name,description,priority,callsigns,suffixes,regex,icao24bit_prefix_start,icao24bit_prefix_end,icao24bit_prefixes
International Civil Aviation Organization,general,0,['4Y'],['AAA-ZZZ'],\"^(4Y)(-{0,1}([A-Z]{3}|[A-Z0-9]{1,4})){0,1}$\",F00000,F07FFF,\"['F00', 'F01', 'F02', 'F03', 'F04', 'F05', 'F06', 'F07']\"
";

} // verus!
