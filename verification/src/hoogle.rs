//! Hoogle: the query sent, and reading what the `hoogle` command line tool
//! and the web API answer. Running the tool and fetching from the web is
//! done by the program around the library.
use vstd::prelude::*;
use vstd::utf8::encode_utf8;

use crate::text::{
    chars_of, contains, contains_str, ends_with, find, find_char, find_str, join, join_v, lines,
    lines_v, rfind_char, slice, starts_with, starts_with_str, string_of, trim, trim_v, views,
};

verus! {

/// One Hoogle hit.
#[derive(Debug, Clone)]
pub struct HoogleResult {
    pub module: String,
    pub name: String,
    pub signature: String,
    pub doc: String,
    pub url: String,
}

/// A hit with its texts as character sequences.
pub struct HoogleView {
    pub module: Seq<char>,
    pub name: Seq<char>,
    pub signature: Seq<char>,
    pub doc: Seq<char>,
    pub url: Seq<char>,
}

impl View for HoogleResult {
    type V = HoogleView;

    open spec fn view(&self) -> HoogleView {
        HoogleView {
            module: self.module@,
            name: self.name@,
            signature: self.signature@,
            doc: self.doc@,
            url: self.url@,
        }
    }
}

pub open spec fn hoogle_views(v: Seq<HoogleResult>) -> Seq<HoogleView> {
    v.map_values(|r: HoogleResult| r@)
}

pub open spec fn opt_hoogle_view(o: Option<HoogleResult>) -> Option<HoogleView> {
    match o {
        Some(r) => Some(r@),
        None => None,
    }
}

// ---------------------------------------------------------------------------
// Uppercase letters (std)
// ---------------------------------------------------------------------------

/// What `char::is_uppercase` says of a character.
pub uninterp spec fn uppercase_char(c: char) -> bool;

/// `char::is_uppercase`: the Unicode `Uppercase` property. Of ASCII
/// characters exactly `A`..`Z` have it; beyond ASCII the answer is left to
/// the name `uppercase_char`.
#[verifier::external_body]
fn is_uppercase(c: char) -> (r: bool)
    ensures
        r == uppercase_char(c),
        (c as u32) < 0x80 ==> (r <==> ('A' <= c && c <= 'Z')),
{
    c.is_uppercase()
}

// ---------------------------------------------------------------------------
// Specification
// ---------------------------------------------------------------------------

pub open spec fn is_quote(c: char) -> bool {
    c == '"' || c == '\''
}

/// The query with a matched pair of surrounding quotes dropped.
pub open spec fn unquoted(s: Seq<char>) -> Seq<char> {
    let t = trim(s);
    if t.len() >= 2 && is_quote(t[0]) && t[0] == t.last() {
        trim(t.subrange(1, t.len() - 1))
    } else {
        t
    }
}

/// Trimming a text whose ends are not whitespace leaves it as it is.
proof fn lemma_trim_solid(t: Seq<char>)
    requires
        t.len() > 0,
        !crate::text::is_ws(t[0]),
        !crate::text::is_ws(t.last()),
    ensures
        trim(t) == t,
{
    assert(crate::text::trim_start(t) == t);
    assert(crate::text::trim_end(t) == t);
}

/// A query in a matched pair of quotes asks the same as the query without
/// them (`:hoogle "[a] -> [a]"` is `:hoogle [a] -> [a]`).
pub proof fn law_unquote_quoted(q: char, s: Seq<char>)
    requires
        is_quote(q),
    ensures
        unquoted(seq![q] + s + seq![q]) == trim(s),
{
    let t = seq![q] + s + seq![q];
    assert(t[0] == q);
    assert(t.last() == q);
    lemma_trim_solid(t);
    assert(t.subrange(1, t.len() - 1) =~= s);
}

pub open spec fn view_of(
    module: Seq<char>,
    name: Seq<char>,
    signature: Seq<char>,
    doc: Seq<char>,
    url: Seq<char>,
) -> HoogleView {
    HoogleView { module, name, signature, doc, url }
}

/// One line of `hoogle search`: `Module name :: type`, `name :: type`, or
/// something without `::` such as `module Data.List` or `class Foo`.
pub open spec fn cli_line(line: Seq<char>) -> Option<HoogleView> {
    let t = trim(line);
    if t.len() == 0 {
        None
    } else {
        match find(t, "::"@) {
            Some(i) => {
                let before = trim(t.take(i));
                let sig = trim(t.skip(i + 2));
                match rfind_char(before, ' ') {
                    Some(j) => Some(
                        view_of(trim(before.take(j)), trim(before.skip(j + 1)), sig, seq![], seq![]),
                    ),
                    None => Some(view_of(seq![], before, sig, seq![], seq![])),
                }
            },
            None => match find_char(t, ' ') {
                Some(j) => Some(view_of(t.take(j), t.skip(j + 1), seq![], seq![], seq![])),
                None => Some(view_of(seq![], t, seq![], seq![], seq![])),
            },
        }
    }
}

/// The hits of `hoogle search` output: one per non-blank line.
pub open spec fn cli_results(ls: Seq<Seq<char>>) -> Seq<HoogleView>
    decreases ls.len(),
{
    if ls.len() == 0 {
        seq![]
    } else {
        match cli_line(ls.last()) {
            Some(r) => cli_results(ls.drop_last()).push(r),
            None => cli_results(ls.drop_last()),
        }
    }
}

/// A byte that the query keeps as it is (RFC 3986 unreserved).
pub open spec fn unreserved(b: u8) -> bool {
    (65 <= b && b <= 90) || (97 <= b && b <= 122) || (48 <= b && b <= 57) || b == 45 || b == 95
        || b == 46 || b == 126
}

/// An upper-case hexadecimal digit.
pub open spec fn hex_digit(d: u8) -> char {
    if d < 10 {
        (d + 48) as char
    } else {
        (d + 55) as char
    }
}

/// A byte of the query, encoded: space as `+`, unreserved bytes as they
/// are, anything else as `%HH`.
pub open spec fn encode_byte(b: u8) -> Seq<char> {
    if b == 32 {
        seq!['+']
    } else if unreserved(b) {
        seq![b as char]
    } else {
        seq!['%', hex_digit(b / 16), hex_digit(b % 16)]
    }
}

pub open spec fn encode_bytes(bs: Seq<u8>) -> Seq<char>
    decreases bs.len(),
{
    if bs.len() == 0 {
        seq![]
    } else {
        encode_bytes(bs.drop_last()) + encode_byte(bs.last())
    }
}

/// `s` with the characters between `<` and `>` (and the brackets) removed.
/// The characters that may stand in the query part of an address as they
/// are: letters, digits, `-`, `_`, `.`, `~`, and `+` and `%` from the
/// encoding itself.
pub open spec fn url_safe(c: char) -> bool {
    ('A' <= c && c <= 'Z') || ('a' <= c && c <= 'z') || ('0' <= c && c <= '9') || c == '-' || c
        == '_' || c == '.' || c == '~' || c == '+' || c == '%'
}

/// Percent-encoding leaves only characters that are safe in an address:
/// no space, bracket or `>` reaches the web API raw.
pub proof fn law_encoding_is_url_safe(bs: Seq<u8>)
    ensures
        forall|i: int| 0 <= i < encode_bytes(bs).len() ==> url_safe(#[trigger] encode_bytes(bs)[i]),
    decreases bs.len(),
{
    if bs.len() > 0 {
        let init = bs.drop_last();
        law_encoding_is_url_safe(init);
        let b = bs.last();
        let e = encode_byte(b);
        assert forall|i: int| 0 <= i < e.len() implies url_safe(#[trigger] e[i]) by {
            if b == 32u8 {
            } else if unreserved(b) {
                assert(e[i] == b as char);
            } else {
                assert(b / 16 <= 15);
                assert(b % 16 <= 15);
                assert(e == seq!['%', hex_digit(b / 16), hex_digit(b % 16)]);
            }
        }
        let r = encode_bytes(bs);
        let a = encode_bytes(init);
        assert(r == a + e);
        assert forall|i: int| 0 <= i < r.len() implies url_safe(#[trigger] r[i]) by {
            if i < a.len() {
                assert(r[i] == a[i]);
            } else {
                assert(r[i] == e[i - a.len()]);
            }
        }
    }
}

pub open spec fn without_tags(s: Seq<char>, in_tag: bool) -> Seq<char>
    decreases s.len(),
{
    if s.len() == 0 {
        seq![]
    } else if s[0] == '<' {
        without_tags(s.drop_first(), true)
    } else if s[0] == '>' {
        without_tags(s.drop_first(), false)
    } else if in_tag {
        without_tags(s.drop_first(), true)
    } else {
        seq![s[0]] + without_tags(s.drop_first(), false)
    }
}

/// Every occurrence of `pat` replaced by `rep`, left to right (`str::replace`).
pub open spec fn replace_all(s: Seq<char>, pat: Seq<char>, rep: Seq<char>) -> Seq<char>
    decreases s.len(),
{
    if pat.len() == 0 {
        s
    } else {
        match find(s, pat) {
            Some(i) => {
                proof {
                    crate::text::lemma_find_from_range(s, pat, 0);
                }
                s.take(i) + rep + replace_all(s.skip(i + pat.len()), pat, rep)
            },
            None => s,
        }
    }
}

/// HTML reduced to its text: tags dropped, the common entities decoded.
pub open spec fn html_text(s: Seq<char>) -> Seq<char> {
    replace_all(
        replace_all(
            replace_all(
                replace_all(replace_all(without_tags(s, false), "&amp;"@, "&"@), "&lt;"@, "<"@),
                "&gt;"@,
                ">"@,
            ),
            "&quot;"@,
            "\""@,
        ),
        "&#39;"@,
        "'"@,
    )
}

// ---------------------------------------------------------------------------
// Implementation
// ---------------------------------------------------------------------------

/// The query with a matched pair of surrounding quotes dropped, so that
/// `"[a] -> [a]"` asks the same as `[a] -> [a]`.
pub fn unquote(s: &str) -> (r: String)
    ensures
        r@ == unquoted(s@),
{
    let v = chars_of(s);
    let t = trim_v(&v);
    let n = t.len();
    if n >= 2 && (t[0] == '"' || t[0] == '\'') && t[0] == t[n - 1] {
        let inner = slice(&t, 1, n - 1);
        string_of(&trim_v(&inner))
    } else {
        string_of(&t)
    }
}

fn hoogle(module: Vec<char>, name: Vec<char>, signature: Vec<char>) -> (r: HoogleResult)
    ensures
        r@ == view_of(module@, name@, signature@, seq![], seq![]),
{
    HoogleResult {
        module: string_of(&module),
        name: string_of(&name),
        signature: string_of(&signature),
        doc: String::new(),
        url: String::new(),
    }
}

/// Reads one line of `hoogle search` output.
pub fn parse_cli_line(line: &str) -> (r: Option<HoogleResult>)
    ensures
        opt_hoogle_view(r) == cli_line(line@),
{
    let v = chars_of(line);
    parse_cli_line_chars(&v)
}

fn parse_cli_line_chars(line: &Vec<char>) -> (r: Option<HoogleResult>)
    ensures
        opt_hoogle_view(r) == cli_line(line@),
{
    let t = trim_v(line);
    let n = t.len();
    if n == 0 {
        return None;
    }
    match find_str(&t, "::") {
        Some(i) => {
            proof {
                reveal_strlit("::");
            }
            let b0 = slice(&t, 0, i);
            let before = trim_v(&b0);
            let s0 = slice(&t, i + 2, n);
            let sig = trim_v(&s0);
            assert(b0@ =~= t@.take(i as int));
            assert(s0@ =~= t@.skip(i + 2));
            match crate::text::rfind_char_v(&before, ' ') {
                Some(j) => {
                    let bn = before.len();
                    let m0 = slice(&before, 0, j);
                    let n0 = slice(&before, j + 1, bn);
                    assert(m0@ =~= before@.take(j as int));
                    assert(n0@ =~= before@.skip(j + 1));
                    Some(hoogle(trim_v(&m0), trim_v(&n0), sig))
                },
                None => Some(hoogle(Vec::new(), before, sig)),
            }
        },
        None => match crate::text::find_char_from(&t, ' ', 0) {
            Some(j) => {
                assert(t@.skip(0) =~= t@);
                let m0 = slice(&t, 0, j);
                let n0 = slice(&t, j + 1, n);
                assert(m0@ =~= t@.take(j as int));
                assert(n0@ =~= t@.skip(j + 1));
                Some(hoogle(m0, n0, Vec::new()))
            },
            None => {
                assert(t@.skip(0) =~= t@);
                Some(hoogle(Vec::new(), t, Vec::new()))
            },
        },
    }
}

/// The hits in the output of `hoogle search`, one per non-blank line.
pub fn parse_cli_output(stdout: &str) -> (r: Vec<HoogleResult>)
    ensures
        hoogle_views(r@) == cli_results(lines(stdout@)),
{
    let v = chars_of(stdout);
    let ls = lines_v(&v);
    let ghost lsv = views(ls@);
    let mut r: Vec<HoogleResult> = Vec::new();
    let mut i: usize = 0;
    while i < ls.len()
        invariant
            i <= ls@.len(),
            lsv == views(ls@),
            lsv == lines(stdout@),
            hoogle_views(r@) == cli_results(lsv.take(i as int)),
        decreases ls.len() - i,
    {
        assert(lsv.take(i + 1).drop_last() =~= lsv.take(i as int));
        assert(lsv.take(i + 1).last() == ls@[i as int]@);
        let ghost before = hoogle_views(r@);
        match parse_cli_line_chars(&ls[i]) {
            Some(h) => {
                r.push(h);
                assert(hoogle_views(r@) =~= before.push(cli_line(ls@[i as int]@)->0));
            },
            None => {},
        }
        i = i + 1;
    }
    assert(lsv.take(ls@.len() as int) =~= lsv);
    r
}

fn hex_digit_exec(d: u8) -> (c: char)
    requires
        d < 16,
    ensures
        c == hex_digit(d),
{
    if d < 10 {
        (d + 48) as char
    } else {
        (d + 55) as char
    }
}

/// The query as the web API wants it: spaces as `+`, bytes outside the
/// unreserved set as `%HH`.
pub fn percent_encode(s: &str) -> (r: String)
    ensures
        r@ == encode_bytes(encode_utf8(s@)),
{
    let bytes = s.as_bytes();
    let mut out: Vec<char> = Vec::new();
    let mut i: usize = 0;
    while i < bytes.len()
        invariant
            i <= bytes@.len(),
            bytes@ == encode_utf8(s@),
            out@ == encode_bytes(bytes@.take(i as int)),
        decreases bytes.len() - i,
    {
        let b = bytes[i];
        assert(bytes@.take(i + 1).drop_last() =~= bytes@.take(i as int));
        assert(bytes@.take(i + 1).last() == b);
        if b == 32 {
            out.push('+');
        } else if (65 <= b && b <= 90) || (97 <= b && b <= 122) || (48 <= b && b <= 57) || b == 45
            || b == 95 || b == 46 || b == 126 {
            out.push(b as char);
        } else {
            out.push('%');
            out.push(hex_digit_exec(b / 16));
            out.push(hex_digit_exec(b % 16));
        }
        assert(out@ =~= encode_bytes(bytes@.take(i + 1)));
        i = i + 1;
    }
    assert(bytes@.take(bytes@.len() as int) =~= bytes@);
    string_of(&out)
}

fn without_tags_v(s: &Vec<char>) -> (r: Vec<char>)
    ensures
        r@ == without_tags(s@, false),
{
    let mut out: Vec<char> = Vec::new();
    let mut in_tag = false;
    let mut i: usize = 0;
    assert(s@.skip(0) =~= s@);
    assert(out@ + without_tags(s@, false) =~= without_tags(s@, false));
    while i < s.len()
        invariant
            i <= s@.len(),
            out@ + without_tags(s@.skip(i as int), in_tag) == without_tags(s@, false),
        decreases s.len() - i,
    {
        let ch = s[i];
        assert(s@.skip(i as int).drop_first() =~= s@.skip(i + 1));
        if ch == '<' {
            in_tag = true;
        } else if ch == '>' {
            in_tag = false;
        } else if !in_tag {
            let ghost before = out@;
            out.push(ch);
            assert(out@ =~= before + seq![ch]);
        }
        i = i + 1;
    }
    assert(s@.skip(s@.len() as int) =~= Seq::<char>::empty());
    assert(out@ + Seq::<char>::empty() =~= out@);
    out
}

fn replace_all_v(s: &Vec<char>, pat: &str, rep: &str) -> (r: Vec<char>)
    requires
        pat@.len() > 0,
    ensures
        r@ == replace_all(s@, pat@, rep@),
{
    let p = chars_of(pat);
    let rv = chars_of(rep);
    let mut out: Vec<char> = Vec::new();
    let mut rest = s.clone();
    loop
        invariant
            p@ == pat@,
            rv@ == rep@,
            p@.len() > 0,
            out@ + replace_all(rest@, pat@, rep@) == replace_all(s@, pat@, rep@),
        decreases rest@.len(),
    {
        match crate::text::find_v(&rest, &p) {
            Some(i) => {
                let n = rest.len();
                let head = slice(&rest, 0, i);
                let tail = slice(&rest, i + p.len(), n);
                assert(head@ =~= rest@.take(i as int));
                assert(tail@ =~= rest@.skip(i + p@.len()));
                let ghost before = out@;
                crate::text::extend(&mut out, &head);
                crate::text::extend(&mut out, &rv);
                assert(out@ + replace_all(tail@, pat@, rep@) =~= before + replace_all(
                    rest@,
                    pat@,
                    rep@,
                ));
                rest = tail;
            },
            None => {
                crate::text::extend(&mut out, &rest);
                return out;
            },
        }
    }
}

/// HTML reduced to text: tags dropped; `&amp;`, `&lt;`, `&gt;`, `&quot;`
/// and `&#39;` decoded.
pub fn strip_html(s: &str) -> (r: String)
    ensures
        r@ == html_text(s@),
{
    let v = chars_of(s);
    let a = without_tags_v(&v);
    proof {
        reveal_strlit("&amp;");
        reveal_strlit("&lt;");
        reveal_strlit("&gt;");
        reveal_strlit("&quot;");
        reveal_strlit("&#39;");
    }
    let b = replace_all_v(&a, "&amp;", "&");
    let c = replace_all_v(&b, "&lt;", "<");
    let d = replace_all_v(&c, "&gt;", ">");
    let e = replace_all_v(&d, "&quot;", "\"");
    let f = replace_all_v(&e, "&#39;", "'");
    string_of(&f)
}

// ---------------------------------------------------------------------------
// `hoogle search --info`
// ---------------------------------------------------------------------------

/// A line naming a module: one word starting with an uppercase letter.
pub open spec fn module_line(t: Seq<char>) -> bool {
    t.len() > 0 && !contains(t, " "@) && uppercase_char(t[0])
}

pub open spec fn url_line(t: Seq<char>) -> bool {
    starts_with(t, "http://"@) || starts_with(t, "https://"@)
}

/// Line `i` of the answer belongs to the documentation text.
pub open spec fn doc_kept(ls: Seq<Seq<char>>, i: int) -> bool {
    i >= 1 && !url_line(trim(ls[i])) && !(i == 1 && module_line(trim(ls[1])))
}

/// The documentation lines among the first `n` lines.
pub open spec fn doc_lines(ls: Seq<Seq<char>>, n: int) -> Seq<Seq<char>>
    decreases n,
{
    if n <= 0 {
        seq![]
    } else {
        doc_lines(ls, n - 1) + (if doc_kept(ls, n - 1) {
            seq![ls[n - 1]]
        } else {
            seq![]
        })
    }
}

/// The last line among the first `n` that starts with `http`.
pub open spec fn last_http(ls: Seq<Seq<char>>, n: int) -> Seq<char>
    decreases n,
{
    if n <= 0 {
        seq![]
    } else if starts_with(ls[n - 1], "http"@) {
        ls[n - 1]
    } else {
        last_http(ls, n - 1)
    }
}

/// The hit that `hoogle search --info <name>` describes: the signature on
/// the first line, a module name on the second, then the documentation,
/// and the last `http` line as the link.
pub open spec fn info_result(stdout: Seq<char>, name: Seq<char>) -> Option<HoogleView> {
    let text = trim(stdout);
    let ls = lines(text);
    if text.len() == 0 || starts_with(text, "No results"@) || ls.len() == 0 {
        None
    } else {
        let sig_line = trim(ls[0]);
        let (nm, sig) = match find(sig_line, "::"@) {
            Some(i) => (trim(sig_line.take(i)), trim(sig_line.skip(i + 2))),
            None => (name, seq![]),
        };
        let module = if ls.len() > 1 && module_line(trim(ls[1])) {
            trim(ls[1])
        } else {
            seq![]
        };
        Some(
            view_of(
                module,
                nm,
                sig,
                trim(join(doc_lines(ls, ls.len() as int), seq!['\n'])),
                last_http(ls, ls.len() as int),
            ),
        )
    }
}

fn is_module_line(t: &Vec<char>) -> (r: bool)
    ensures
        r == module_line(t@),
{
    t.len() > 0 && !contains_str(t, " ") && is_uppercase(t[0])
}

/// Reads the answer of `hoogle search --info <name>`; `None` when there is
/// no answer or it says `No results`.
pub fn doc_from_info(stdout: &str, name: &str) -> (r: Option<HoogleResult>)
    ensures
        opt_hoogle_view(r) == info_result(stdout@, name@),
{
    let v = chars_of(stdout);
    let text = trim_v(&v);
    let ls = lines_v(&text);
    let ghost lsv = views(ls@);
    if text.len() == 0 || starts_with_str(&text, "No results") || ls.len() == 0 {
        return None;
    }
    let sig_line = trim_v(&ls[0]);
    let sn = sig_line.len();
    let (nm, sig): (Vec<char>, Vec<char>) = match find_str(&sig_line, "::") {
        Some(i) => {
            proof {
                reveal_strlit("::");
            }
            let a = slice(&sig_line, 0, i);
            let b = slice(&sig_line, i + 2, sn);
            assert(a@ =~= sig_line@.take(i as int));
            assert(b@ =~= sig_line@.skip(i + 2));
            (trim_v(&a), trim_v(&b))
        },
        None => (chars_of(name), Vec::new()),
    };
    let module: Vec<char> = if ls.len() > 1 {
        let t1 = trim_v(&ls[1]);
        if is_module_line(&t1) {
            t1
        } else {
            Vec::new()
        }
    } else {
        Vec::new()
    };
    let mut kept: Vec<Vec<char>> = Vec::new();
    let mut url: Vec<char> = Vec::new();
    let mut i: usize = 0;
    while i < ls.len()
        invariant
            i <= ls@.len(),
            lsv == views(ls@),
            views(kept@) == doc_lines(lsv, i as int),
            url@ == last_http(lsv, i as int),
        decreases ls.len() - i,
    {
        let t = trim_v(&ls[i]);
        let url_like = starts_with_str(&t, "http://") || starts_with_str(&t, "https://");
        let module_here = if i == 1 {
            is_module_line(&t)
        } else {
            false
        };
        let ghost before = views(kept@);
        if i >= 1 && !url_like && !module_here {
            kept.push(ls[i].clone());
            assert(views(kept@) =~= before + seq![lsv[i as int]]);
        } else {
            assert(before + Seq::<Seq<char>>::empty() =~= before);
        }
        if starts_with_str(&ls[i], "http") {
            url = ls[i].clone();
        }
        i = i + 1;
    }
    let mut nl: Vec<char> = Vec::new();
    nl.push('\n');
    assert(nl@ =~= seq!['\n']);
    let joined = join_v(&kept, &nl);
    let doc = trim_v(&joined);
    Some(
        HoogleResult {
            module: string_of(&module),
            name: string_of(&nm),
            signature: string_of(&sig),
            doc: string_of(&doc),
            url: string_of(&url),
        },
    )
}

// ---------------------------------------------------------------------------
// Search requests
// ---------------------------------------------------------------------------

/// The arguments for `hoogle search` asking `count` hits for `query`.
pub fn cli_args(query: &str, count: usize) -> (r: Vec<String>)
    ensures
        crate::text::string_views(r@) == seq![
            "search"@,
            "--count"@,
            crate::text::decimal(count as nat),
            query@,
        ],
{
    let mut r: Vec<String> = Vec::new();
    r.push("search".to_string());
    r.push("--count".to_string());
    r.push(string_of(&crate::text::decimal_v(count)));
    r.push(query.to_string());
    assert(crate::text::string_views(r@) =~= seq![
        "search"@,
        "--count"@,
        crate::text::decimal(count as nat),
        query@,
    ]);
    r
}

/// The web API address asking `count` hits for `query`.
pub open spec fn web_address(query: Seq<char>, count: nat) -> Seq<char> {
    "https://hoogle.haskell.org/?mode=json&hoogle="@ + encode_bytes(encode_utf8(query))
        + "&start=1&count="@ + crate::text::decimal(count)
}

/// The web API address asking `count` hits for `query`.
pub fn web_url(query: &str, count: usize) -> (r: String)
    ensures
        r@ == web_address(query@, count as nat),
{
    let mut r = String::new();
    r.append("https://hoogle.haskell.org/?mode=json&hoogle=");
    let enc = percent_encode(query);
    r.append(enc.as_str());
    r.append("&start=1&count=");
    let c = string_of(&crate::text::decimal_v(count));
    r.append(c.as_str());
    r
}

// ---------------------------------------------------------------------------
// The web API's JSON answer
// ---------------------------------------------------------------------------

/// What the library reads of one entry of the web API's JSON array. For
/// `url` and `item`: `None` when the key is missing, `Some(None)` when its
/// value is not a string. `module_name` is the string at `module.name`, and
/// `docs` the string at `docs`, where there is one.
#[derive(Debug, Clone)]
pub struct JsonHit {
    pub url: Option<Option<String>>,
    pub module_name: Option<String>,
    pub item: Option<Option<String>>,
    pub docs: Option<String>,
}

pub struct JsonHitView {
    pub url: Option<Option<Seq<char>>>,
    pub module_name: Option<Seq<char>>,
    pub item: Option<Option<Seq<char>>>,
    pub docs: Option<Seq<char>>,
}

pub open spec fn opt_str(o: Option<String>) -> Option<Seq<char>> {
    match o {
        Some(s) => Some(s@),
        None => None,
    }
}

pub open spec fn opt_opt_str(o: Option<Option<String>>) -> Option<Option<Seq<char>>> {
    match o {
        Some(x) => Some(opt_str(x)),
        None => None,
    }
}

impl View for JsonHit {
    type V = JsonHitView;

    open spec fn view(&self) -> JsonHitView {
        JsonHitView {
            url: opt_opt_str(self.url),
            module_name: opt_str(self.module_name),
            item: opt_opt_str(self.item),
            docs: opt_str(self.docs),
        }
    }
}

pub open spec fn hit_views(v: Seq<JsonHit>) -> Seq<JsonHitView> {
    v.map_values(|h: JsonHit| h@)
}

/// The entries that `serde_json` reads from a JSON text that is an array.
pub uninterp spec fn json_hits_of(json: Seq<char>) -> Option<Seq<JsonHitView>>;

/// `serde_json::from_str` into a `Value`, then, if it is an array, each
/// element read as a `JsonHit` (`Value::get`, `Value::as_str`). `None` when
/// the text is not JSON or not an array. What is read depends on the text
/// alone, named `json_hits_of`; the JSON grammar is not restated.
#[verifier::external_body]
fn json_hits(json: &str) -> (r: Option<Vec<JsonHit>>)
    ensures
        match r {
            Some(v) => json_hits_of(json@) == Some(hit_views(v@)),
            None => json_hits_of(json@) is None,
        },
{
    let value: serde_json::Value = serde_json::from_str(json).ok()?;
    let arr = value.as_array()?;
    Some(arr.iter().map(|e| JsonHit {
        url: e.get("url").map(|u| u.as_str().map(String::from)),
        module_name: e.get("module").and_then(|m| m.get("name")).and_then(|n| n.as_str()).map(String::from),
        item: e.get("item").map(|i| i.as_str().map(String::from)),
        docs: e.get("docs").and_then(|d| d.as_str()).map(String::from),
    }).collect())
}

pub open spec fn or_empty(o: Option<Seq<char>>) -> Seq<char> {
    match o {
        Some(s) => s,
        None => seq![],
    }
}

/// The hit an entry gives: entries without `url` or `item` give none; the
/// item's HTML is reduced to text and split at `::` into name and type.
pub open spec fn hit_result(h: JsonHitView) -> Option<HoogleView> {
    match (h.url, h.item) {
        (Some(u), Some(it)) => {
            let clean = html_text(or_empty(it));
            let (name, sig) = match find(clean, "::"@) {
                Some(i) => (trim(clean.take(i)), trim(clean.skip(i + 2))),
                None => (trim(clean), seq![]),
            };
            Some(view_of(or_empty(h.module_name), name, sig, html_text(or_empty(h.docs)), or_empty(u)))
        },
        _ => None,
    }
}

pub open spec fn hits_results(hs: Seq<JsonHitView>) -> Seq<HoogleView>
    decreases hs.len(),
{
    if hs.len() == 0 {
        seq![]
    } else {
        match hit_result(hs.last()) {
            Some(r) => hits_results(hs.drop_last()).push(r),
            None => hits_results(hs.drop_last()),
        }
    }
}

fn or_empty_string(o: &Option<String>) -> (r: String)
    ensures
        r@ == or_empty(opt_str(*o)),
{
    match o {
        Some(s) => s.clone(),
        None => String::new(),
    }
}

/// The hits of the web API's entries, in order.
pub fn results_from_hits(hits: &Vec<JsonHit>) -> (r: Vec<HoogleResult>)
    ensures
        hoogle_views(r@) == hits_results(hit_views(hits@)),
{
    let ghost hv = hit_views(hits@);
    let mut r: Vec<HoogleResult> = Vec::new();
    let mut i: usize = 0;
    while i < hits.len()
        invariant
            i <= hits@.len(),
            hv == hit_views(hits@),
            hoogle_views(r@) == hits_results(hv.take(i as int)),
        decreases hits.len() - i,
    {
        assert(hv.take(i + 1).drop_last() =~= hv.take(i as int));
        assert(hv.take(i + 1).last() == hits@[i as int]@);
        let h = &hits[i];
        let ghost before = hoogle_views(r@);
        match (&h.url, &h.item) {
            (Some(u), Some(it)) => {
                let item = or_empty_string(it);
                let clean = chars_of(strip_html(item.as_str()).as_str());
                let cn = clean.len();
                let (name, sig): (Vec<char>, Vec<char>) = match find_str(&clean, "::") {
                    Some(k) => {
                        proof {
                            reveal_strlit("::");
                        }
                        let a = slice(&clean, 0, k);
                        let b = slice(&clean, k + 2, cn);
                        assert(a@ =~= clean@.take(k as int));
                        assert(b@ =~= clean@.skip(k + 2));
                        (trim_v(&a), trim_v(&b))
                    },
                    None => (trim_v(&clean), Vec::new()),
                };
                let docs = or_empty_string(&h.docs);
                let res = HoogleResult {
                    module: or_empty_string(&h.module_name),
                    name: string_of(&name),
                    signature: string_of(&sig),
                    doc: strip_html(docs.as_str()),
                    url: or_empty_string(u),
                };
                r.push(res);
                assert(hoogle_views(r@) =~= before.push(hit_result(hits@[i as int]@)->0));
            },
            _ => {},
        }
        i = i + 1;
    }
    assert(hv.take(hits@.len() as int) =~= hv);
    r
}

/// The hits in the web API's JSON answer; `None` when it is not a JSON array.
pub fn parse_hoogle_json(json: &str) -> (r: Option<Vec<HoogleResult>>)
    ensures
        match r {
            Some(v) => json_hits_of(json@) matches Some(hs) && hoogle_views(v@) == hits_results(hs),
            None => json_hits_of(json@) is None,
        },
{
    match json_hits(json) {
        Some(hits) => Some(results_from_hits(&hits)),
        None => None,
    }
}

// ---------------------------------------------------------------------------
// The lookup: the command line tool first, the web API when it fails
// ---------------------------------------------------------------------------

/// Outside work that a lookup asks for.
#[derive(Debug, Clone)]
pub enum Fetch {
    /// Run `hoogle` with these arguments and hand back its standard output.
    Cli(Vec<String>),
    /// Fetch this address from the web API and hand back the body.
    Web(String),
}

/// What came back of the outside work that a lookup asked for last.
#[derive(Debug, Clone)]
pub enum Reply {
    /// Nothing was asked yet: the lookup begins.
    Begin,
    /// The standard output of `hoogle`; `None` when it could not be run or
    /// exited with a failure.
    Cli(Option<String>),
    /// The body from the web API; `None` when the fetch failed.
    Web(Option<String>),
}

/// The next step of a search.
#[derive(Debug, Clone)]
pub enum SearchStep {
    Run(Fetch),
    Found(Vec<HoogleResult>),
}

/// The next step of a documentation lookup.
#[derive(Debug, Clone)]
pub enum DocStep {
    Run(Fetch),
    Found(Option<HoogleResult>),
}

/// The hits of a web API body: none when it is not a JSON array.
pub open spec fn web_hits(body: Seq<char>) -> Seq<HoogleView> {
    match json_hits_of(body) {
        Some(hs) => hits_results(hs),
        None => seq![],
    }
}

/// The arguments for `hoogle search --info`.
pub open spec fn info_args(name: Seq<char>) -> Seq<Seq<char>> {
    seq!["search"@, "--info"@, name]
}

/// Searches Hoogle for `query`, asking for `count` hits: the command line
/// tool first, the web API when the tool fails. Each call takes what came
/// back of the step asked for before and says what to do next.
pub fn search(query: &str, count: usize, reply: Reply) -> (r: SearchStep)
    ensures
        match reply {
            Reply::Begin => r matches SearchStep::Run(Fetch::Cli(args))
                && crate::text::string_views(args@) == seq![
                    "search"@,
                    "--count"@,
                    crate::text::decimal(count as nat),
                    unquoted(query@),
                ],
            Reply::Cli(Some(out)) => r matches SearchStep::Found(v)
                && hoogle_views(v@) == cli_results(lines(out@)),
            Reply::Cli(None) => r matches SearchStep::Run(Fetch::Web(u))
                && u@ == web_address(unquoted(query@), count as nat),
            Reply::Web(Some(body)) => r matches SearchStep::Found(v)
                && hoogle_views(v@) == web_hits(body@),
            Reply::Web(None) => r matches SearchStep::Found(v) && v@.len() == 0,
        },
{
    let q = unquote(query);
    match reply {
        Reply::Begin => SearchStep::Run(Fetch::Cli(cli_args(q.as_str(), count))),
        Reply::Cli(Some(out)) => SearchStep::Found(parse_cli_output(out.as_str())),
        Reply::Cli(None) => SearchStep::Run(Fetch::Web(web_url(q.as_str(), count))),
        Reply::Web(Some(body)) => match parse_hoogle_json(body.as_str()) {
            Some(v) => SearchStep::Found(v),
            None => SearchStep::Found(Vec::new()),
        },
        Reply::Web(None) => SearchStep::Found(Vec::new()),
    }
}

/// Looks up the documentation of `name`: `hoogle search --info` first, the
/// best hit of the web API when the tool fails or finds nothing. Each call
/// takes what came back of the step asked for before and says what to do
/// next.
pub fn doc(name: &str, reply: Reply) -> (r: DocStep)
    ensures
        match reply {
            Reply::Begin => r matches DocStep::Run(Fetch::Cli(args))
                && crate::text::string_views(args@) == info_args(unquoted(name@)),
            Reply::Cli(Some(out)) => match info_result(out@, unquoted(name@)) {
                Some(h) => r matches DocStep::Found(Some(x)) && x@ == h,
                None => r matches DocStep::Run(Fetch::Web(u))
                    && u@ == web_address(unquoted(name@), 1),
            },
            Reply::Cli(None) => r matches DocStep::Run(Fetch::Web(u))
                && u@ == web_address(unquoted(name@), 1),
            Reply::Web(Some(body)) => r matches DocStep::Found(o)
                && opt_hoogle_view(o) == (if web_hits(body@).len() > 0 {
                    Some(web_hits(body@)[0])
                } else {
                    None
                }),
            Reply::Web(None) => r matches DocStep::Found(None),
        },
{
    let n = unquote(name);
    match reply {
        Reply::Begin => {
            let mut args: Vec<String> = Vec::new();
            args.push("search".to_string());
            args.push("--info".to_string());
            args.push(n);
            assert(crate::text::string_views(args@) =~= info_args(unquoted(name@)));
            DocStep::Run(Fetch::Cli(args))
        },
        Reply::Cli(Some(out)) => match doc_from_info(out.as_str(), n.as_str()) {
            Some(h) => DocStep::Found(Some(h)),
            None => DocStep::Run(Fetch::Web(web_url(n.as_str(), 1))),
        },
        Reply::Cli(None) => DocStep::Run(Fetch::Web(web_url(n.as_str(), 1))),
        Reply::Web(Some(body)) => match parse_hoogle_json(body.as_str()) {
            Some(mut v) => {
                if v.len() > 0 {
                    let first = v.remove(0);
                    DocStep::Found(Some(first))
                } else {
                    DocStep::Found(None)
                }
            },
            None => DocStep::Found(None),
        },
        Reply::Web(None) => DocStep::Found(None),
    }
}

} // verus!
