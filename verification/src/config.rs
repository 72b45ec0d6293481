//! Runtime settings: defaults, the `~/.ghcitty` key=value file, and
//! session changes through `:config_<key>`.
use vstd::prelude::*;

use crate::text::{
    chars_of, decimal, decimal_v, eq_str, find_char, find_char_from, lines, lines_v,
    parse_usize, parse_usize_spec, slice, starts_with, starts_with_str, string_of, trim, trim_v,
    views,
};

verus! {

/// The settings of a session.
#[derive(Debug, Clone)]
pub struct Config {
    pub pretty_errors: bool,
    pub pretty_print: bool,
    pub show_timing: bool,
    pub max_output_lines: usize,
    pub max_output_chars: usize,
}

pub open spec fn default_config() -> Config {
    Config {
        pretty_errors: true,
        pretty_print: true,
        show_timing: false,
        max_output_lines: 50,
        max_output_chars: 3000,
    }
}

impl Default for Config {
    fn default() -> (c: Self)
        ensures
            c == default_config(),
    {
        Config {
            pretty_errors: true,
            pretty_print: true,
            show_timing: false,
            max_output_lines: 50,
            max_output_chars: 3000,
        }
    }
}

// ---------------------------------------------------------------------------
// Lowercasing (std)
// ---------------------------------------------------------------------------

/// What `str::to_lowercase` returns for a text.
pub uninterp spec fn lowercase(s: Seq<char>) -> Seq<char>;

/// All characters ASCII.
pub open spec fn all_ascii(s: Seq<char>) -> bool {
    forall|i: int| 0 <= i < s.len() ==> (#[trigger] s[i] as u32) < 0x80
}

/// `A`..`Z` mapped to `a`..`z`, every other character kept.
pub open spec fn ascii_lower(s: Seq<char>) -> Seq<char> {
    s.map_values(|c: char| if 'A' <= c && c <= 'Z' { ((c as u32) + 32) as char } else { c })
}

/// The lowercase of a text, as far as it is known here: for an all-ASCII
/// text, `ascii_lower`; otherwise what `lowercase` names.
pub open spec fn lower_of(s: Seq<char>) -> Seq<char> {
    if all_ascii(s) {
        ascii_lower(s)
    } else {
        lowercase(s)
    }
}

/// `str::to_lowercase`: the Unicode lowercase of the text. Its result is a
/// function of the text alone, named `lowercase`; for an all-ASCII text it
/// maps `A`..`Z` to `a`..`z` and keeps every other character. Beyond ASCII
/// the result is left to the name.
#[verifier::external_body]
pub(crate) fn to_lowercase(s: &str) -> (r: String)
    ensures
        r@ == lowercase(s@),
        all_ascii(s@) ==> r@ == ascii_lower(s@),
{
    s.to_lowercase()
}

// ---------------------------------------------------------------------------
// Specification
// ---------------------------------------------------------------------------

/// Each `c` replaced by `d`.
pub open spec fn replace_char(s: Seq<char>, c: char, d: char) -> Seq<char> {
    s.map_values(|x: char| if x == c { d } else { x })
}

pub open spec fn true_word(w: Seq<char>) -> bool {
    w == "true"@ || w == "yes"@ || w == "1"@ || w == "on"@
}

pub open spec fn false_word(w: Seq<char>) -> bool {
    w == "false"@ || w == "no"@ || w == "0"@ || w == "off"@
}

/// A boolean value given its lowercase form `lower` and the text `raw` as typed.
pub open spec fn bool_value(lower: Seq<char>, raw: Seq<char>) -> Result<bool, Seq<char>> {
    if true_word(lower) {
        Ok(true)
    } else if false_word(lower) {
        Ok(false)
    } else {
        Err("expected true/false, got '"@ + raw + "'"@)
    }
}

pub open spec fn number_error(raw: Seq<char>) -> Seq<char> {
    "expected a number, got '"@ + raw + "'"@
}

pub open spec fn unknown_error(key: Seq<char>) -> Seq<char> {
    "unknown setting '"@ + key + "'"@
}

pub open spec fn is_bool_key(k: Seq<char>) -> bool {
    k == "pretty_errors"@ || k == "pretty_print"@ || k == "show_timing"@
}

pub open spec fn is_number_key(k: Seq<char>) -> bool {
    k == "max_output_lines"@ || k == "max_output_chars"@
}

/// `c` with the setting `k` (underscore form) changed to `b` or `n`.
pub open spec fn with_bool(c: Config, k: Seq<char>, b: bool) -> Config {
    if k == "pretty_errors"@ {
        Config { pretty_errors: b, ..c }
    } else if k == "pretty_print"@ {
        Config { pretty_print: b, ..c }
    } else {
        Config { show_timing: b, ..c }
    }
}

pub open spec fn with_number(c: Config, k: Seq<char>, n: usize) -> Config {
    if k == "max_output_lines"@ {
        Config { max_output_lines: n, ..c }
    } else {
        Config { max_output_chars: n, ..c }
    }
}

pub open spec fn bool_text(b: bool) -> Seq<char> {
    if b {
        "true"@
    } else {
        "false"@
    }
}

/// The settings as listed by `:config`, in a fixed order.
pub open spec fn entries_of(c: Config) -> Seq<(Seq<char>, Seq<char>)> {
    seq![
        ("pretty_errors"@, bool_text(c.pretty_errors)),
        ("pretty_print"@, bool_text(c.pretty_print)),
        ("show_timing"@, bool_text(c.show_timing)),
        ("max_output_lines"@, decimal(c.max_output_lines as nat)),
        ("max_output_chars"@, decimal(c.max_output_chars as nat)),
    ]
}

pub open spec fn entry_views(v: Seq<(&'static str, String)>) -> Seq<(Seq<char>, Seq<char>)> {
    v.map_values(|e: (&'static str, String)| (e.0@, e.1@))
}

/// What setting `key` to `value` does: the settings after it, and `Ok` or the
/// error message.
pub open spec fn set_outcome(c: Config, key: Seq<char>, value: Seq<char>) -> (
    Config,
    Result<(), Seq<char>>,
) {
    let k = replace_char(key, '-', '_');
    if is_bool_key(k) {
        match bool_value(lower_of(value), value) {
            Ok(b) => (with_bool(c, k, b), Ok(())),
            Err(e) => (c, Err(e)),
        }
    } else if is_number_key(k) {
        match parse_usize_spec(value) {
            Some(n) => (with_number(c, k, n), Ok(())),
            None => (c, Err(number_error(value))),
        }
    } else {
        (c, Err(unknown_error(key)))
    }
}

pub open spec fn unit_result_view(r: Result<(), String>) -> Result<(), Seq<char>> {
    match r {
        Ok(()) => Ok(()),
        Err(m) => Err(m@),
    }
}

impl Config {
    /// Changes one setting. Keys may use `-` for `_`. Booleans accept
    /// true/yes/1/on and false/no/0/off in any case; numbers must parse as
    /// an unsigned integer. On an error the settings are unchanged.
    pub fn set(&mut self, key: &str, value: &str) -> (r: Result<(), String>)
        ensures
            (*final(self), unit_result_view(r)) == set_outcome(*old(self), key@, value@),
    {
        let kv = chars_of(key);
        let k = replace_char_v(&kv, '-', '_');
        if eq_str(&k, "pretty_errors") || eq_str(&k, "pretty_print") || eq_str(&k, "show_timing") {
            match parse_bool(value) {
                Ok(b) => {
                    if eq_str(&k, "pretty_errors") {
                        self.pretty_errors = b;
                    } else if eq_str(&k, "pretty_print") {
                        self.pretty_print = b;
                    } else {
                        self.show_timing = b;
                    }
                    Ok(())
                },
                Err(e) => Err(e),
            }
        } else if eq_str(&k, "max_output_lines") || eq_str(&k, "max_output_chars") {
            let vv = chars_of(value);
            match parse_usize(&vv) {
                Some(n) => {
                    if eq_str(&k, "max_output_lines") {
                        self.max_output_lines = n;
                    } else {
                        self.max_output_chars = n;
                    }
                    Ok(())
                },
                None => {
                    let mut m = String::new();
                    m.append("expected a number, got '");
                    m.append(value);
                    m.append("'");
                    Err(m)
                },
            }
        } else {
            let mut m = String::new();
            m.append("unknown setting '");
            m.append(key);
            m.append("'");
            Err(m)
        }
    }

    /// The settings with their values as text, in a fixed order.
    pub fn entries(&self) -> (r: Vec<(&'static str, String)>)
        ensures
            entry_views(r@) == entries_of(*self),
    {
        let mut r: Vec<(&'static str, String)> = Vec::new();
        r.push(("pretty_errors", bool_string(self.pretty_errors)));
        r.push(("pretty_print", bool_string(self.pretty_print)));
        r.push(("show_timing", bool_string(self.show_timing)));
        r.push(("max_output_lines", string_of(&decimal_v(self.max_output_lines))));
        r.push(("max_output_chars", string_of(&decimal_v(self.max_output_chars))));
        assert(entry_views(r@) =~= entries_of(*self));
        r
    }

    /// The settings that a `~/.ghcitty` file gives: each key may be written
    /// with `_` or `-`; a missing or unreadable value keeps the default.
    pub fn from_ini(content: &str) -> (c: Config)
        ensures
            c == config_from_map(ini_map(content@)),
    {
        let map = parse_ini(content);
        Config {
            pretty_errors: bool_setting(&map, "pretty_errors", true),
            pretty_print: bool_setting(&map, "pretty_print", true),
            show_timing: bool_setting(&map, "show_timing", false),
            max_output_lines: usize_setting(&map, "max_output_lines", 50),
            max_output_chars: usize_setting(&map, "max_output_chars", 3000),
        }
    }
}

fn bool_string(b: bool) -> (s: String)
    ensures
        s@ == bool_text(b),
{
    if b {
        "true".to_string()
    } else {
        "false".to_string()
    }
}

/// Each `c` in `v` replaced by `d`.
pub fn replace_char_v(v: &Vec<char>, c: char, d: char) -> (r: Vec<char>)
    ensures
        r@ == replace_char(v@, c, d),
{
    let mut r: Vec<char> = Vec::new();
    let mut i: usize = 0;
    while i < v.len()
        invariant
            i <= v@.len(),
            r@ == replace_char(v@, c, d).take(i as int),
        decreases v.len() - i,
    {
        r.push(if v[i] == c { d } else { v[i] });
        assert(r@ =~= replace_char(v@, c, d).take(i + 1));
        i = i + 1;
    }
    assert(replace_char(v@, c, d).take(v@.len() as int) =~= replace_char(v@, c, d));
    r
}

/// A boolean from its lowercase form `lower`; `raw` is the text as typed,
/// for the error message.
pub fn bool_from_lowercase(lower: &str, raw: &str) -> (r: Result<bool, String>)
    ensures
        match bool_value(lower@, raw@) {
            Ok(b) => r == Ok::<bool, String>(b),
            Err(e) => r matches Err(m) && m@ == e,
        },
{
    let l = chars_of(lower);
    if eq_str(&l, "true") || eq_str(&l, "yes") || eq_str(&l, "1") || eq_str(&l, "on") {
        Ok(true)
    } else if eq_str(&l, "false") || eq_str(&l, "no") || eq_str(&l, "0") || eq_str(&l, "off") {
        Ok(false)
    } else {
        let mut m = String::new();
        m.append("expected true/false, got '");
        m.append(raw);
        m.append("'");
        Err(m)
    }
}

/// A boolean setting: true/yes/1/on or false/no/0/off, in any case.
pub fn parse_bool(v: &str) -> (r: Result<bool, String>)
    ensures
        match bool_value(lower_of(v@), v@) {
            Ok(b) => r == Ok::<bool, String>(b),
            Err(e) => r matches Err(m) && m@ == e,
        },
{
    let lower = to_lowercase(v);
    bool_from_lowercase(lower.as_str(), v)
}

// ---------------------------------------------------------------------------
// The settings file
// ---------------------------------------------------------------------------

/// Key/value pairs read from a settings file. Each key occurs once.
pub struct IniMap {
    pub entries: Vec<(String, String)>,
}

pub open spec fn pair_views(v: Seq<(String, String)>) -> Seq<(Seq<char>, Seq<char>)> {
    v.map_values(|e: (String, String)| (e.0@, e.1@))
}

/// The map that a sequence of assignments leaves: a later one wins.
pub open spec fn map_of(ps: Seq<(Seq<char>, Seq<char>)>) -> Map<Seq<char>, Seq<char>>
    decreases ps.len(),
{
    if ps.len() == 0 {
        Map::empty()
    } else {
        map_of(ps.drop_last()).insert(ps.last().0, ps.last().1)
    }
}

impl View for IniMap {
    type V = Map<Seq<char>, Seq<char>>;

    open spec fn view(&self) -> Map<Seq<char>, Seq<char>> {
        map_of(pair_views(self.entries@))
    }
}

impl IniMap {
    /// No key occurs twice.
    pub open spec fn wf(&self) -> bool {
        forall|i: int, j: int|
            0 <= i < j < self.entries@.len() ==> (#[trigger] self.entries@[i]).0@
                != (#[trigger] self.entries@[j]).0@
    }

    /// The value of `key`.
    pub fn get(&self, key: &str) -> (r: Option<String>)
        requires
            self.wf(),
        ensures
            match r {
                Some(v) => self@.contains_key(key@) && self@[key@] == v@,
                None => !self@.contains_key(key@),
            },
    {
        let k = chars_of(key);
        let mut i: usize = 0;
        while i < self.entries.len()
            invariant
                i <= self.entries@.len(),
                self.wf(),
                k@ == key@,
                forall|j: int| 0 <= j < i ==> (#[trigger] self.entries@[j]).0@ != key@,
            decreases self.entries.len() - i,
        {
            let kc = chars_of(self.entries[i].0.as_str());
            if crate::text::eq_v(&kc, &k) {
                proof {
                    lemma_map_of_distinct(pair_views(self.entries@), i as int);
                }
                return Some(self.entries[i].1.clone());
            }
            i = i + 1;
        }
        proof {
            lemma_map_of_absent(pair_views(self.entries@), key@);
        }
        None
    }

    /// Sets `key` to `value`, replacing an earlier value.
    fn insert(&mut self, key: String, value: String)
        requires
            old(self).wf(),
        ensures
            final(self).wf(),
            final(self)@ == old(self)@.insert(key@, value@),
    {
        let k = chars_of(key.as_str());
        let ghost ps = pair_views(self.entries@);
        let mut i: usize = 0;
        while i < self.entries.len()
            invariant
                i <= self.entries@.len(),
                self.wf(),
                k@ == key@,
                ps == pair_views(self.entries@),
                ps == pair_views(old(self).entries@),
                self.entries@ == old(self).entries@,
                forall|j: int| 0 <= j < i ==> (#[trigger] self.entries@[j]).0@ != key@,
            decreases self.entries.len() - i,
        {
            let kc = chars_of(self.entries[i].0.as_str());
            if crate::text::eq_v(&kc, &k) {
                proof {
                    lemma_map_of_update(ps, i as int, value@);
                    assert(ps[i as int].0 == key@);
                    assert(ps.update(i as int, (ps[i as int].0, value@)) == ps.update(
                        i as int,
                        (key@, value@),
                    ));
                }
                let ghost old_entries = self.entries@;
                self.entries.set(i, (key, value));
                assert(pair_views(self.entries@) =~= ps.update(i as int, (key@, value@)));
                assert forall|a: int, b: int|
                    0 <= a < b < self.entries@.len() implies (#[trigger] self.entries@[a]).0@
                    != (#[trigger] self.entries@[b]).0@ by {
                    if a != i && b != i {
                        assert(self.entries@[a] == old_entries[a]);
                        assert(self.entries@[b] == old_entries[b]);
                    } else if a == i {
                        assert(self.entries@[b] == old_entries[b]);
                        assert(old_entries[i as int].0@ == key@);
                    } else {
                        assert(self.entries@[a] == old_entries[a]);
                        assert(old_entries[i as int].0@ == key@);
                    }
                }
                return;
            }
            i = i + 1;
        }
        let ghost old_entries = self.entries@;
        self.entries.push((key, value));
        assert(pair_views(self.entries@) =~= ps.push((key@, value@)));
        assert(pair_views(self.entries@).drop_last() =~= ps);
        assert forall|a: int, b: int|
            0 <= a < b < self.entries@.len() implies (#[trigger] self.entries@[a]).0@
            != (#[trigger] self.entries@[b]).0@ by {
            assert(self.entries@[a] == old_entries[a]);
            if b < old_entries.len() {
                assert(self.entries@[b] == old_entries[b]);
            }
        }
    }
}

/// With distinct keys, the map gives each key the value stored with it.
proof fn lemma_map_of_distinct(ps: Seq<(Seq<char>, Seq<char>)>, i: int)
    requires
        0 <= i < ps.len(),
        forall|a: int, b: int| 0 <= a < b < ps.len() ==> (#[trigger] ps[a]).0 != (#[trigger] ps[b]).0,
    ensures
        map_of(ps).contains_key(ps[i].0),
        map_of(ps)[ps[i].0] == ps[i].1,
    decreases ps.len(),
{
    if i < ps.len() - 1 {
        let d = ps.drop_last();
        assert forall|a: int, b: int| 0 <= a < b < d.len() implies (#[trigger] d[a]).0 != (
        #[trigger] d[b]).0 by {
            assert(d[a] == ps[a] && d[b] == ps[b]);
        }
        assert(d[i] == ps[i]);
        lemma_map_of_distinct(d, i);
        assert(ps[i].0 != ps[ps.len() - 1].0);
    }
}

proof fn lemma_map_of_absent(ps: Seq<(Seq<char>, Seq<char>)>, k: Seq<char>)
    requires
        forall|j: int| 0 <= j < ps.len() ==> (#[trigger] ps[j]).0 != k,
    ensures
        !map_of(ps).contains_key(k),
    decreases ps.len(),
{
    if ps.len() > 0 {
        let d = ps.drop_last();
        assert forall|j: int| 0 <= j < d.len() implies (#[trigger] d[j]).0 != k by {
            assert(d[j] == ps[j]);
        }
        lemma_map_of_absent(d, k);
        assert(ps[ps.len() - 1].0 != k);
    }
}

/// Replacing the value stored with a key that occurs once is an insert.
proof fn lemma_map_of_update(ps: Seq<(Seq<char>, Seq<char>)>, i: int, v: Seq<char>)
    requires
        0 <= i < ps.len(),
        forall|a: int, b: int| 0 <= a < b < ps.len() ==> (#[trigger] ps[a]).0 != (#[trigger] ps[b]).0,
    ensures
        map_of(ps.update(i, (ps[i].0, v))) == map_of(ps).insert(ps[i].0, v),
    decreases ps.len(),
{
    let q = ps.update(i, (ps[i].0, v));
    if i == ps.len() - 1 {
        assert(q.drop_last() =~= ps.drop_last());
        assert(map_of(q) =~= map_of(ps).insert(ps[i].0, v));
    } else {
        let d = ps.drop_last();
        assert forall|a: int, b: int| 0 <= a < b < d.len() implies (#[trigger] d[a]).0 != (
        #[trigger] d[b]).0 by {
            assert(d[a] == ps[a] && d[b] == ps[b]);
        }
        assert(d[i] == ps[i]);
        lemma_map_of_update(d, i, v);
        assert(q.drop_last() =~= d.update(i, (ps[i].0, v)));
        assert(q.last() == ps.last());
        assert(ps[i].0 != ps.last().0);
        assert(map_of(q) =~= map_of(ps).insert(ps[i].0, v));
    }
}

/// A settings line that assigns: not blank, not a `#` comment, has `=`.
pub open spec fn ini_assignment(line: Seq<char>) -> Option<(Seq<char>, Seq<char>)> {
    let t = trim(line);
    if t.len() == 0 || starts_with(t, "#"@) {
        None
    } else {
        match find_char(t, '=') {
            Some(i) => Some((lower_of(trim(t.take(i))), trim(t.skip(i + 1)))),
            None => None,
        }
    }
}

/// The assignments of the lines `ls`, in order.
pub open spec fn ini_pairs(ls: Seq<Seq<char>>) -> Seq<(Seq<char>, Seq<char>)>
    decreases ls.len(),
{
    if ls.len() == 0 {
        seq![]
    } else {
        match ini_assignment(ls.last()) {
            Some(p) => ini_pairs(ls.drop_last()).push(p),
            None => ini_pairs(ls.drop_last()),
        }
    }
}

/// What a settings file assigns: lowercased keys, trimmed values, the
/// last assignment of a key wins.
pub open spec fn ini_map(content: Seq<char>) -> Map<Seq<char>, Seq<char>> {
    map_of(ini_pairs(lines(content)))
}

/// Reads `key = value` lines; blank lines and `#` comments are skipped,
/// keys are lowercased.
pub fn parse_ini(content: &str) -> (m: IniMap)
    ensures
        m.wf(),
        m@ == ini_map(content@),
{
    let v = chars_of(content);
    let ls = lines_v(&v);
    let ghost lsv = views(ls@);
    let mut m = IniMap { entries: Vec::new() };
    assert(m@ =~= map_of(seq![]));
    let mut i: usize = 0;
    while i < ls.len()
        invariant
            i <= ls@.len(),
            lsv == views(ls@),
            lsv == lines(content@),
            m.wf(),
            m@ == map_of(ini_pairs(lsv.take(i as int))),
        decreases ls.len() - i,
    {
        assert(lsv.take(i + 1).drop_last() =~= lsv.take(i as int));
        assert(lsv.take(i + 1).last() == ls@[i as int]@);
        let t = trim_v(&ls[i]);
        if t.len() > 0 && !starts_with_str(&t, "#") {
            let n = t.len();
            match find_char_from(&t, '=', 0) {
                Some(e) => {
                    assert(t@.skip(0) =~= t@);
                    assert(find_char(t@, '=') == Some(e as int));
                    let kpart = slice(&t, 0, e);
                    let kt = trim_v(&kpart);
                    let key = to_lowercase(string_of(&kt).as_str());
                    let vpart = slice(&t, e + 1, n);
                    let vt = trim_v(&vpart);
                    assert(kpart@ =~= t@.take(e as int));
                    assert(vpart@ =~= t@.skip(e + 1));
                    let val = string_of(&vt);
                    assert(ini_assignment(ls@[i as int]@) == Some((key@, val@)));
                    assert(ini_pairs(lsv.take(i + 1)) == ini_pairs(lsv.take(i as int)).push(
                        (key@, val@),
                    ));
                    let ghost pk = key@;
                    let ghost pv = val@;
                    m.insert(key, val);
                    proof {
                        let prev = ini_pairs(lsv.take(i as int));
                        assert(prev.push((pk, pv)).drop_last() =~= prev);
                        assert(map_of(prev.push((pk, pv))) == map_of(prev).insert(pk, pv));
                    }
                },
                None => {
                    assert(t@.skip(0) =~= t@);
                    assert(ini_assignment(ls@[i as int]@) is None);
                    assert(ini_pairs(lsv.take(i + 1)) == ini_pairs(lsv.take(i as int)));
                },
            }
        } else {
            assert(ini_assignment(ls@[i as int]@) is None);
            assert(ini_pairs(lsv.take(i + 1)) == ini_pairs(lsv.take(i as int)));
        }
        i = i + 1;
    }
    assert(lsv.take(ls@.len() as int) =~= lsv);
    m
}

pub open spec fn dashed(key: Seq<char>) -> Seq<char> {
    replace_char(key, '_', '-')
}

/// The value for `key`, else for its dashed form.
pub open spec fn lookup(m: Map<Seq<char>, Seq<char>>, key: Seq<char>) -> Option<Seq<char>> {
    if m.contains_key(key) {
        Some(m[key])
    } else if m.contains_key(dashed(key)) {
        Some(m[dashed(key)])
    } else {
        None
    }
}

pub open spec fn bool_setting_spec(m: Map<Seq<char>, Seq<char>>, key: Seq<char>, default: bool) -> bool {
    match lookup(m, key) {
        Some(v) => true_word(v),
        None => default,
    }
}

pub open spec fn usize_setting_spec(m: Map<Seq<char>, Seq<char>>, key: Seq<char>, default: usize) -> usize {
    match lookup(m, key) {
        Some(v) => match parse_usize_spec(v) {
            Some(n) => n,
            None => default,
        },
        None => default,
    }
}

pub open spec fn config_from_map(m: Map<Seq<char>, Seq<char>>) -> Config {
    Config {
        pretty_errors: bool_setting_spec(m, "pretty_errors"@, true),
        pretty_print: bool_setting_spec(m, "pretty_print"@, true),
        show_timing: bool_setting_spec(m, "show_timing"@, false),
        max_output_lines: usize_setting_spec(m, "max_output_lines"@, 50),
        max_output_chars: usize_setting_spec(m, "max_output_chars"@, 3000),
    }
}

fn lookup_v(map: &IniMap, key: &str) -> (r: Option<String>)
    requires
        map.wf(),
    ensures
        match r {
            Some(v) => lookup(map@, key@) == Some(v@),
            None => lookup(map@, key@) is None,
        },
{
    match map.get(key) {
        Some(v) => Some(v),
        None => {
            let d = replace_char_v(&chars_of(key), '_', '-');
            let ds = string_of(&d);
            map.get(ds.as_str())
        },
    }
}

/// A boolean setting of the file: exactly true/yes/1/on counts as true.
fn bool_setting(map: &IniMap, key: &str, default: bool) -> (r: bool)
    requires
        map.wf(),
    ensures
        r == bool_setting_spec(map@, key@, default),
{
    match lookup_v(map, key) {
        Some(v) => {
            let c = chars_of(v.as_str());
            eq_str(&c, "true") || eq_str(&c, "yes") || eq_str(&c, "1") || eq_str(&c, "on")
        },
        None => default,
    }
}

/// A number setting of the file; one that does not parse keeps the default.
fn usize_setting(map: &IniMap, key: &str, default: usize) -> (r: usize)
    requires
        map.wf(),
    ensures
        r == usize_setting_spec(map@, key@, default),
{
    match lookup_v(map, key) {
        Some(v) => {
            let c = chars_of(v.as_str());
            match parse_usize(&c) {
                Some(n) => n,
                None => default,
            }
        },
        None => default,
    }
}

// ---------------------------------------------------------------------------
// Setting a value and listing the settings
// ---------------------------------------------------------------------------

/// The text that `:config` lists for a setting just set from `value`.
pub open spec fn set_text(k: Seq<char>, value: Seq<char>) -> Seq<char> {
    if is_bool_key(k) {
        bool_text(bool_value(lower_of(value), value)->Ok_0)
    } else {
        decimal(parse_usize_spec(value)->0 as nat)
    }
}

/// Setting each pair in turn: the settings after, and whether every set
/// was accepted.
pub open spec fn set_each(c: Config, es: Seq<(Seq<char>, Seq<char>)>) -> (Config, bool)
    decreases es.len(),
{
    if es.len() == 0 {
        (c, true)
    } else {
        let (c1, ok) = set_each(c, es.drop_last());
        let (c2, r) = set_outcome(c1, es.last().0, es.last().1);
        (c2, ok && r is Ok)
    }
}

proof fn lemma_bool_text_reads_back(b: bool)
    ensures
        bool_value(lower_of(bool_text(b)), bool_text(b)) == Ok::<bool, Seq<char>>(b),
{
    reveal_strlit("true");
    reveal_strlit("false");
    reveal_strlit("yes");
    reveal_strlit("1");
    reveal_strlit("on");
    let w = bool_text(b);
    assert(all_ascii(w));
    assert(ascii_lower(w) =~= w);
}

proof fn lemma_number_reads_back(n: usize)
    ensures
        parse_usize_spec(decimal(n as nat)) == Some(n),
{
    crate::text::lemma_decimal_reads_back(n as nat);
    assert(crate::text::unsigned_part(decimal(n as nat)) == decimal(n as nat));
}

/// Whatever `:config` lists can be set back: setting each listed pair, in
/// order, into any settings is accepted every time and gives the listed
/// settings again.
pub proof fn law_entries_set_back(c: Config, d: Config)
    ensures
        set_each(d, entries_of(c)) == (c, true),
{
    reveal_strlit("pretty_errors");
    reveal_strlit("pretty_print");
    reveal_strlit("show_timing");
    reveal_strlit("max_output_lines");
    reveal_strlit("max_output_chars");
    reveal_strlit("-");
    lemma_bool_text_reads_back(c.pretty_errors);
    lemma_bool_text_reads_back(c.pretty_print);
    lemma_bool_text_reads_back(c.show_timing);
    lemma_number_reads_back(c.max_output_lines);
    lemma_number_reads_back(c.max_output_chars);
    let es = entries_of(c);
    let k0 = "pretty_errors"@;
    let k1 = "pretty_print"@;
    let k2 = "show_timing"@;
    let k3 = "max_output_lines"@;
    let k4 = "max_output_chars"@;
    assert(replace_char(k0, '-', '_') =~= k0);
    assert(replace_char(k1, '-', '_') =~= k1);
    assert(replace_char(k2, '-', '_') =~= k2);
    assert(replace_char(k3, '-', '_') =~= k3);
    assert(replace_char(k4, '-', '_') =~= k4);
    assert(k0.len() == 13 && k1.len() == 12 && k2.len() == 11 && k3.len() == 16 && k4.len() == 16);
    assert(k3[11] == 'l' && k4[11] == 'c');
    let e0 = es.take(0);
    let e1 = es.take(1);
    let e2 = es.take(2);
    let e3 = es.take(3);
    let e4 = es.take(4);
    assert(e1.drop_last() =~= e0 && e1.last() == es[0]);
    assert(e2.drop_last() =~= e1 && e2.last() == es[1]);
    assert(e3.drop_last() =~= e2 && e3.last() == es[2]);
    assert(e4.drop_last() =~= e3 && e4.last() == es[3]);
    assert(es.drop_last() =~= e4 && es.last() == es[4]);
    let d1 = Config { pretty_errors: c.pretty_errors, ..d };
    let d2 = Config { pretty_print: c.pretty_print, ..d1 };
    let d3 = Config { show_timing: c.show_timing, ..d2 };
    let d4 = Config { max_output_lines: c.max_output_lines, ..d3 };
    assert(set_each(d, e0) == (d, true));
    assert(set_each(d, e1) == (d1, true));
    assert(set_each(d, e2) == (d2, true));
    assert(set_each(d, e3) == (d3, true));
    assert(set_each(d, e4) == (d4, true));
    assert(set_each(d, es) == (c, true));
}

/// Setting a value changes that one setting and nothing else: a refused
/// value leaves every setting as it was; an accepted one makes `:config`
/// list the new value under its key and the others as before.
pub proof fn law_set_then_list(c: Config, key: Seq<char>, value: Seq<char>)
    ensures
        set_outcome(c, key, value).1 is Err ==> set_outcome(c, key, value).0 == c,
        set_outcome(c, key, value).1 is Ok ==> forall|i: int|
            0 <= i < 5 ==> if (#[trigger] entries_of(set_outcome(c, key, value).0)[i]).0
                == replace_char(key, '-', '_') {
                entries_of(set_outcome(c, key, value).0)[i].1 == set_text(
                    replace_char(key, '-', '_'),
                    value,
                )
            } else {
                entries_of(set_outcome(c, key, value).0)[i] == entries_of(c)[i]
            },
{
    let k = replace_char(key, '-', '_');
    let c2 = set_outcome(c, key, value).0;
    if set_outcome(c, key, value).1 is Ok {
        let e1 = entries_of(c);
        let e2 = entries_of(c2);
        assert forall|i: int| 0 <= i < 5 implies if (#[trigger] e2[i]).0 == k {
            e2[i].1 == set_text(k, value)
        } else {
            e2[i] == e1[i]
        } by {
            reveal_strlit("pretty_errors");
            reveal_strlit("pretty_print");
            reveal_strlit("show_timing");
            reveal_strlit("max_output_lines");
            reveal_strlit("max_output_chars");
            assert("pretty_errors"@.len() == 13);
            assert("pretty_print"@.len() == 12);
            assert("show_timing"@.len() == 11);
            assert("max_output_lines"@.len() == 16);
            assert("max_output_chars"@.len() == 16);
            assert("max_output_lines"@[11] == 'l');
            assert("max_output_chars"@[11] == 'c');
            if is_bool_key(k) {
                let b = bool_value(lower_of(value), value)->Ok_0;
                assert(c2 == with_bool(c, k, b));
                assert(set_text(k, value) == bool_text(b));
            } else {
                let n = parse_usize_spec(value)->0;
                assert(c2 == with_number(c, k, n));
                assert(set_text(k, value) == decimal(n as nat));
            }
            if i == 0 {
                assert(e2[0] == ("pretty_errors"@, bool_text(c2.pretty_errors)));
                assert(e1[0] == ("pretty_errors"@, bool_text(c.pretty_errors)));
            } else if i == 1 {
                assert(e2[1] == ("pretty_print"@, bool_text(c2.pretty_print)));
                assert(e1[1] == ("pretty_print"@, bool_text(c.pretty_print)));
            } else if i == 2 {
                assert(e2[2] == ("show_timing"@, bool_text(c2.show_timing)));
                assert(e1[2] == ("show_timing"@, bool_text(c.show_timing)));
            } else if i == 3 {
                assert(e2[3] == ("max_output_lines"@, decimal(c2.max_output_lines as nat)));
                assert(e1[3] == ("max_output_lines"@, decimal(c.max_output_lines as nat)));
            } else {
                assert(e2[4] == ("max_output_chars"@, decimal(c2.max_output_chars as nat)));
                assert(e1[4] == ("max_output_chars"@, decimal(c.max_output_chars as nat)));
            }
        }
    }
}

} // verus!
