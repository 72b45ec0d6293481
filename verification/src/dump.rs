//! `:core` / `:stg` / `:cmm` viewer. GHCi runs interpreted bytecode, so it
//! cannot show optimized output: the expression goes into a temporary module
//! compiled out of process with `-O2` and a dump flag, and the dump is then
//! cut down and highlighted. Writing the module and running the compiler is
//! done by the program around the library.
use vstd::prelude::*;

use crate::highlight::{highlight_input, highlight_spec};
use crate::style::{dim_style, painted};
use crate::text::{
    alphanumeric, chars_of, concat, contains, contains_str, is_alnum, is_alphanumeric, is_ws,
    is_ws_exec, join, join_v, lines, lines_v, slice, starts_with, starts_with_str, string_of,
    string_views, trim, trim_end, trim_end_v, trim_start, trim_start_v, trim_v, views,
};

verus! {

/// The dump that is asked for.
#[derive(Clone, Copy, Debug, PartialEq, Eq)]
pub enum DumpKind {
    Core,
    Stg,
    Cmm,
}

/// The compiler flag that produces a dump.
pub open spec fn flag_of(k: DumpKind) -> Seq<char> {
    match k {
        DumpKind::Core => "-ddump-simpl"@,
        DumpKind::Stg => "-ddump-stg-final"@,
        DumpKind::Cmm => "-ddump-cmm"@,
    }
}

impl DumpKind {
    /// The compiler flag that produces the dump.
    pub fn dump_flag(self) -> (r: &'static str)
        ensures
            r@ == flag_of(self),
    {
        match self {
            DumpKind::Core => "-ddump-simpl",
            DumpKind::Stg => "-ddump-stg-final",
            DumpKind::Cmm => "-ddump-cmm",
        }
    }

    /// The name of the dump, as the command spells it.
    pub fn label(self) -> (r: &'static str)
        ensures
            r@ == match self {
                DumpKind::Core => "core"@,
                DumpKind::Stg => "stg"@,
                DumpKind::Cmm => "cmm"@,
            },
    {
        match self {
            DumpKind::Core => "core",
            DumpKind::Stg => "stg",
            DumpKind::Cmm => "cmm",
        }
    }
}

/// The name the expression is bound to in the temporary module. No leading
/// underscore: `_name` parses as a named typed hole, not a binding.
pub const BINDING: &'static str = "ghcittyDump";

// ---------------------------------------------------------------------------
// The temporary module
// ---------------------------------------------------------------------------

/// Each text followed by a newline.
pub open spec fn with_newlines(ls: Seq<Seq<char>>) -> Seq<char>
    decreases ls.len(),
{
    if ls.len() == 0 {
        seq![]
    } else {
        with_newlines(ls.drop_last()) + ls.last() + "\n"@
    }
}

/// Each line indented by four spaces and followed by a newline.
pub open spec fn indented(ls: Seq<Seq<char>>) -> Seq<char>
    decreases ls.len(),
{
    if ls.len() == 0 {
        seq![]
    } else {
        indented(ls.drop_last()) + "    "@ + ls.last() + "\n"@
    }
}

/// The temporary module: the imports and the session's bindings as
/// top-level declarations, then the expression bound to `ghcittyDump`,
/// parenthesized and indented past column 1.
pub open spec fn module_text(expr: Seq<char>, imports: Seq<Seq<char>>, bindings: Seq<Seq<char>>) -> Seq<char> {
    "{-# OPTIONS_GHC -w #-}\nmodule GhcittyDump where\n"@ + with_newlines(imports) + with_newlines(
        bindings,
    ) + "ghcittyDump =\n  (\n"@ + indented(lines(expr)) + "  )\n"@
}

fn with_newlines_into(out: &mut String, ls: &[String])
    ensures
        final(out)@ == old(out)@ + with_newlines(string_views(ls@)),
{
    let ghost lv = string_views(ls@);
    let ghost base = out@;
    let mut i: usize = 0;
    while i < ls.len()
        invariant
            i <= ls@.len(),
            lv == string_views(ls@),
            out@ == base + with_newlines(lv.take(i as int)),
        decreases ls.len() - i,
    {
        assert(lv.take(i + 1).drop_last() =~= lv.take(i as int));
        out.append(ls[i].as_str());
        out.append("\n");
        i = i + 1;
    }
    assert(lv.take(ls@.len() as int) =~= lv);
}

/// The source of the temporary module.
pub fn build_module(expr: &str, imports: &[String], bindings: &[String]) -> (r: String)
    ensures
        r@ == module_text(expr@, string_views(imports@), string_views(bindings@)),
{
    let mut src = String::new();
    src.append("{-# OPTIONS_GHC -w #-}\nmodule GhcittyDump where\n");
    with_newlines_into(&mut src, imports);
    with_newlines_into(&mut src, bindings);
    src.append("ghcittyDump =\n  (\n");
    let v = chars_of(expr);
    let ls = lines_v(&v);
    let ghost lsv = views(ls@);
    let ghost base = src@;
    let mut i: usize = 0;
    while i < ls.len()
        invariant
            i <= ls@.len(),
            lsv == views(ls@),
            src@ == base + indented(lsv.take(i as int)),
        decreases ls.len() - i,
    {
        assert(lsv.take(i + 1).drop_last() =~= lsv.take(i as int));
        src.append("    ");
        src.append(string_of(&ls[i]).as_str());
        src.append("\n");
        i = i + 1;
    }
    assert(lsv.take(ls@.len() as int) =~= lsv);
    src.append("  )\n");
    src
}

/// The arguments that make the compiler write the dump of the module at
/// `src_path` (objects go to `out_dir`).
pub fn dump_flags(kind: DumpKind, out_dir: &str, src_path: &str) -> (r: Vec<String>)
    ensures
        string_views(r@) == seq![
            "-O2"@,
            "-fforce-recomp"@,
            flag_of(kind),
            "-dsuppress-all"@,
            "-dsuppress-uniques"@,
            "-dno-typeable-binds"@,
            "-c"@,
            "-outputdir"@,
            out_dir@,
            src_path@,
        ],
{
    let mut r: Vec<String> = Vec::new();
    r.push("-O2".to_string());
    r.push("-fforce-recomp".to_string());
    r.push(kind.dump_flag().to_string());
    r.push("-dsuppress-all".to_string());
    r.push("-dsuppress-uniques".to_string());
    r.push("-dno-typeable-binds".to_string());
    r.push("-c".to_string());
    r.push("-outputdir".to_string());
    r.push(out_dir.to_string());
    r.push(src_path.to_string());
    assert(string_views(r@) =~= seq![
        "-O2"@,
        "-fforce-recomp"@,
        flag_of(kind),
        "-dsuppress-all"@,
        "-dsuppress-uniques"@,
        "-dno-typeable-binds"@,
        "-c"@,
        "-outputdir"@,
        out_dir@,
        src_path@,
    ]);
    r
}

// ---------------------------------------------------------------------------
// The dump section
// ---------------------------------------------------------------------------

/// Index of the first line whose text starts with the dump banner.
pub open spec fn banner_index(ls: Seq<Seq<char>>) -> Option<int>
    decreases ls.len(),
{
    if ls.len() == 0 {
        None
    } else if starts_with(trim_start(ls[0]), "===================="@) {
        Some(0)
    } else {
        match banner_index(ls.drop_first()) {
            Some(i) => Some(i + 1),
            None => None,
        }
    }
}

/// Everything from the `==== ... ====` banner on, without trailing blank
/// lines; empty when there is no banner.
pub open spec fn section_of(stdout: Seq<char>) -> Seq<char> {
    match banner_index(lines(stdout)) {
        Some(i) => trim_end(join(lines(stdout).skip(i), seq!['\n'])),
        None => seq![],
    }
}

/// Keeps everything from the `==== ... ====` banner on, dropping leading
/// noise and trailing blank lines.
pub fn extract_section(stdout: &str) -> (r: String)
    ensures
        r@ == section_of(stdout@),
{
    let v = chars_of(stdout);
    let ls = lines_v(&v);
    let ghost lsv = views(ls@);
    let mut i: usize = 0;
    assert(lsv.skip(0) =~= lsv);
    while i < ls.len()
        invariant
            i <= ls@.len(),
            lsv == views(ls@),
            lsv == lines(stdout@),
            banner_index(lsv) == match banner_index(lsv.skip(i as int)) {
                Some(k) => Some(k + i),
                None => None::<int>,
            },
        decreases ls.len() - i,
    {
        assert(lsv.skip(i as int).drop_first() =~= lsv.skip(i + 1));
        assert(lsv.skip(i as int)[0] == ls@[i as int]@);
        let t = trim_start_v(&ls[i]);
        if starts_with_str(&t, "====================") {
            let mut rest: Vec<Vec<char>> = Vec::new();
            let mut k: usize = i;
            while k < ls.len()
                invariant
                    i <= k <= ls@.len(),
                    lsv == views(ls@),
                    views(rest@) == lsv.subrange(i as int, k as int),
                decreases ls.len() - k,
            {
                rest.push(ls[k].clone());
                assert(lsv.subrange(i as int, k + 1) =~= lsv.subrange(i as int, k as int).push(
                    ls@[k as int]@,
                ));
                k = k + 1;
            }
            assert(lsv.subrange(i as int, ls@.len() as int) =~= lsv.skip(i as int));
            let mut nl: Vec<char> = Vec::new();
            nl.push('\n');
            assert(nl@ =~= seq!['\n']);
            let body = join_v(&rest, &nl);
            return string_of(&trim_end_v(&body));
        }
        i = i + 1;
    }
    assert(lsv.skip(ls@.len() as int) =~= Seq::<Seq<char>>::empty());
    String::new()
}

// ---------------------------------------------------------------------------
// Identifiers
// ---------------------------------------------------------------------------

/// A character that can appear in a Core or STG identifier.
pub open spec fn ident_char(c: char) -> bool {
    alphanumeric(c) || c == '_' || c == '\'' || c == '#' || c == '$'
}

pub fn is_ident_char(c: char) -> (r: bool)
    ensures
        r == ident_char(c),
{
    is_alphanumeric(c) || c == '_' || c == '\'' || c == '#' || c == '$'
}

/// Index of the first character that is not an identifier character.
pub open spec fn first_nonident(s: Seq<char>) -> Option<int>
    decreases s.len(),
{
    if s.len() == 0 {
        None
    } else if !ident_char(s[0]) {
        Some(0)
    } else {
        match first_nonident(s.drop_first()) {
            Some(i) => Some(i + 1),
            None => None,
        }
    }
}

pub proof fn lemma_first_nonident(s: Seq<char>)
    ensures
        first_nonident(s) matches Some(i) ==> 0 <= i < s.len() && !ident_char(s[i]) && forall|j: int|
            0 <= j < i ==> ident_char(s[j]),
        first_nonident(s) is None ==> forall|j: int| 0 <= j < s.len() ==> ident_char(s[j]),
    decreases s.len(),
{
    if s.len() > 0 {
        lemma_first_nonident(s.drop_first());
        if ident_char(s[0]) {
            assert forall|j: int| 0 < j < s.len() implies s[j] == s.drop_first()[j - 1] by {}
        }
    }
}

/// The pieces of `s` between characters that are not identifier characters.
pub open spec fn ident_tokens(s: Seq<char>) -> Seq<Seq<char>>
    decreases s.len(),
{
    proof {
        lemma_first_nonident(s);
    }
    match first_nonident(s) {
        None => seq![s],
        Some(i) => seq![s.take(i)] + ident_tokens(s.skip(i + 1)),
    }
}

/// The leading run of identifier characters.
pub open spec fn ident_prefix(s: Seq<char>) -> Seq<char> {
    match first_nonident(s) {
        Some(i) => s.take(i),
        None => s,
    }
}

fn first_nonident_from(v: &Vec<char>, from: usize) -> (r: Option<usize>)
    requires
        from <= v@.len(),
    ensures
        r matches Some(i) ==> from <= i < v@.len() && first_nonident(v@.skip(from as int)) == Some(
            i - from,
        ),
        r is None ==> first_nonident(v@.skip(from as int)) is None,
{
    let n = v.len();
    let mut i = from;
    while i < n
        invariant
            from <= i <= n,
            n == v@.len(),
            forall|j: int| from <= j < i ==> ident_char(#[trigger] v@[j]),
        decreases n - i,
    {
        if !is_ident_char(v[i]) {
            proof {
                let s = v@.skip(from as int);
                lemma_first_nonident(s);
                lemma_first_nonident_at(s, i - from);
            }
            return Some(i);
        }
        i = i + 1;
    }
    proof {
        let s = v@.skip(from as int);
        lemma_first_nonident_none(s);
    }
    None
}

proof fn lemma_first_nonident_at(s: Seq<char>, i: int)
    requires
        0 <= i < s.len(),
        !ident_char(s[i]),
        forall|j: int| 0 <= j < i ==> ident_char(s[j]),
    ensures
        first_nonident(s) == Some(i),
    decreases i,
{
    if i > 0 {
        lemma_first_nonident_at(s.drop_first(), i - 1);
    }
}

proof fn lemma_first_nonident_none(s: Seq<char>)
    requires
        forall|j: int| 0 <= j < s.len() ==> ident_char(s[j]),
    ensures
        first_nonident(s) is None,
    decreases s.len(),
{
    if s.len() > 0 {
        lemma_first_nonident_none(s.drop_first());
    }
}

fn ident_tokens_v(v: &Vec<char>) -> (r: Vec<Vec<char>>)
    ensures
        views(r@) == ident_tokens(v@),
{
    let mut r: Vec<Vec<char>> = Vec::new();
    let mut start: usize = 0;
    assert(v@.skip(0) == v@);
    loop
        invariant
            0 <= start <= v@.len(),
            views(r@) + ident_tokens(v@.skip(start as int)) == ident_tokens(v@),
        decreases v.len() - start,
    {
        let ghost rest = v@.skip(start as int);
        match first_nonident_from(v, start) {
            None => {
                let piece = slice(v, start, v.len());
                assert(piece@ == rest);
                let ghost r0 = r@;
                r.push(piece);
                assert(views(r@) =~= views(r0).push(rest));
                assert(ident_tokens(rest) == seq![rest]);
                return r;
            },
            Some(i) => {
                let piece = slice(v, start, i);
                assert(piece@ == rest.take(i - start));
                let ghost r0 = r@;
                let ghost pv = piece@;
                r.push(piece);
                assert(views(r@) =~= views(r0).push(pv));
                assert(rest.skip(i - start + 1) == v@.skip(i + 1));
                assert(ident_tokens(rest) == seq![pv] + ident_tokens(rest.skip(i - start + 1)));
                start = i + 1;
            },
        }
    }
}

fn ident_prefix_v(v: &Vec<char>) -> (r: Vec<char>)
    ensures
        r@ == ident_prefix(v@),
{
    assert(v@.skip(0) =~= v@);
    match first_nonident_from(v, 0) {
        Some(i) => slice(v, 0, i),
        None => v.clone(),
    }
}

// ---------------------------------------------------------------------------
// Reachable bindings
// ---------------------------------------------------------------------------

/// A section cut into banner lines and blocks of lines separated by blank
/// lines; `cur` is the block being read.
pub struct Grouping {
    pub header: Seq<Seq<char>>,
    pub blocks: Seq<Seq<Seq<char>>>,
    pub cur: Seq<Seq<char>>,
}

pub open spec fn close_block(blocks: Seq<Seq<Seq<char>>>, cur: Seq<Seq<char>>) -> Seq<Seq<Seq<char>>> {
    if cur.len() > 0 {
        blocks.push(cur)
    } else {
        blocks
    }
}

pub open spec fn is_banner(line: Seq<char>) -> bool {
    starts_with(trim_start(line), "===="@) || starts_with(trim_start(line), "Result size"@)
}

pub open spec fn group_step(g: Grouping, line: Seq<char>) -> Grouping {
    if is_banner(line) {
        Grouping { header: g.header.push(line), blocks: close_block(g.blocks, g.cur), cur: seq![] }
    } else if trim(line).len() == 0 {
        Grouping { blocks: close_block(g.blocks, g.cur), cur: seq![], ..g }
    } else {
        Grouping { cur: g.cur.push(line), ..g }
    }
}

pub open spec fn group_lines(ls: Seq<Seq<char>>, k: int) -> Grouping
    decreases k,
{
    if k <= 0 {
        Grouping { header: seq![], blocks: seq![], cur: seq![] }
    } else {
        group_step(group_lines(ls, k - 1), ls[k - 1])
    }
}

/// Banner lines, and the blocks of the section.
pub open spec fn grouping_of(section: Seq<char>) -> (Seq<Seq<char>>, Seq<Seq<Seq<char>>>) {
    let g = group_lines(lines(section), lines(section).len() as int);
    (g.header, close_block(g.blocks, g.cur))
}

/// The name a block defines: the leading identifier of its first line that
/// is not indented, a `--` comment or an `[IdInfo]` annotation.
pub open spec fn binder(block: Seq<Seq<char>>) -> Option<Seq<char>>
    decreases block.len(),
{
    if block.len() == 0 {
        None
    } else {
        let l = block[0];
        let t = trim_start(l);
        if (l.len() > 0 && is_ws(l[0])) || starts_with(t, "--"@) || starts_with(t, "["@)
            || ident_prefix(t).len() == 0 {
            binder(block.drop_first())
        } else {
            Some(ident_prefix(t))
        }
    }
}

pub open spec fn binders(blocks: Seq<Seq<Seq<char>>>) -> Seq<Option<Seq<char>>> {
    blocks.map_values(|b: Seq<Seq<char>>| binder(b))
}

/// The last block that defines `name` (a later definition wins).
pub open spec fn lookup(bs: Seq<Option<Seq<char>>>, name: Seq<char>) -> Option<int>
    decreases bs.len(),
{
    if bs.len() == 0 {
        None
    } else if bs.last() == Some(name) {
        Some(bs.len() - 1)
    } else {
        lookup(bs.drop_last(), name)
    }
}

/// Some identifier in `block` names block `j`.
pub open spec fn refers(block: Seq<Seq<char>>, bs: Seq<Option<Seq<char>>>, j: int) -> bool {
    exists|l: int, k: int|
        0 <= l < block.len() && 0 <= k < ident_tokens(block[l]).len() && lookup(
            bs,
            #[trigger] ident_tokens(block[l])[k],
        ) == Some(j)
}

/// Block `j` is reachable from block `root` in at most `d` steps.
pub open spec fn reach_in(blocks: Seq<Seq<Seq<char>>>, root: int, d: nat, j: int) -> bool
    decreases d,
{
    if d == 0 {
        j == root
    } else {
        reach_in(blocks, root, (d - 1) as nat, j) || exists|i: int|
            0 <= i < blocks.len() && reach_in(blocks, root, (d - 1) as nat, i) && #[trigger] refers(
                blocks[i],
                binders(blocks),
                j,
            )
    }
}

pub open spec fn reachable(blocks: Seq<Seq<Seq<char>>>, root: int, j: int) -> bool {
    exists|d: nat| #[trigger] reach_in(blocks, root, d, j)
}

/// The kept blocks' lines after the banner lines, a blank line before each
/// block.
pub open spec fn kept_lines(
    header: Seq<Seq<char>>,
    blocks: Seq<Seq<Seq<char>>>,
    keep: spec_fn(int) -> bool,
    k: int,
) -> Seq<Seq<char>>
    decreases k,
{
    if k <= 0 {
        header
    } else {
        let prev = kept_lines(header, blocks, keep, k - 1);
        if keep(k - 1) {
            (if prev.len() > 0 {
                prev.push(seq![])
            } else {
                prev
            }) + blocks[k - 1]
        } else {
            prev
        }
    }
}

/// The section cut down to the banner and the bindings reachable from
/// `ghcittyDump`; the whole section when no block defines it.
pub open spec fn reachable_text(section: Seq<char>) -> Seq<char> {
    let (header, blocks) = grouping_of(section);
    match lookup(binders(blocks), BINDING@) {
        None => section,
        Some(root) => trim_end(
            join(
                kept_lines(header, blocks, |j: int| reachable(blocks, root, j), blocks.len() as int),
                seq!['\n'],
            ),
        ),
    }
}

fn close_block_v(blocks: &mut Vec<Vec<Vec<char>>>, cur: &mut Vec<Vec<char>>)
    ensures
        block_views(final(blocks)@) == close_block(block_views(old(blocks)@), views(old(cur)@)),
        final(cur)@.len() == 0,
{
    if cur.len() > 0 {
        let mut c: Vec<Vec<char>> = Vec::new();
        std::mem::swap(&mut c, cur);
        let ghost before = block_views(blocks@);
        blocks.push(c);
        assert(block_views(blocks@) =~= before.push(views(c@)));
    }
}

pub open spec fn block_views(v: Seq<Vec<Vec<char>>>) -> Seq<Seq<Seq<char>>> {
    v.map_values(|b: Vec<Vec<char>>| views(b@))
}

fn group_section(ls: &Vec<Vec<char>>) -> (r: (Vec<Vec<char>>, Vec<Vec<Vec<char>>>))
    ensures
        views(r.0@) == group_lines(views(ls@), ls@.len() as int).header,
        block_views(r.1@) == close_block(
            group_lines(views(ls@), ls@.len() as int).blocks,
            group_lines(views(ls@), ls@.len() as int).cur,
        ),
{
    let ghost lsv = views(ls@);
    let mut header: Vec<Vec<char>> = Vec::new();
    let mut blocks: Vec<Vec<Vec<char>>> = Vec::new();
    let mut cur: Vec<Vec<char>> = Vec::new();
    let mut i: usize = 0;
    while i < ls.len()
        invariant
            i <= ls@.len(),
            lsv == views(ls@),
            views(header@) == group_lines(lsv, i as int).header,
            block_views(blocks@) == group_lines(lsv, i as int).blocks,
            views(cur@) == group_lines(lsv, i as int).cur,
        decreases ls.len() - i,
    {
        let line = &ls[i];
        assert(lsv[i as int] == line@);
        let t = trim_start_v(line);
        if starts_with_str(&t, "====") || starts_with_str(&t, "Result size") {
            close_block_v(&mut blocks, &mut cur);
            let ghost hb = views(header@);
            header.push(line.clone());
            assert(views(header@) =~= hb.push(line@));
            assert(views(cur@) =~= Seq::<Seq<char>>::empty());
        } else if trim_v(line).len() == 0 {
            close_block_v(&mut blocks, &mut cur);
            assert(views(cur@) =~= Seq::<Seq<char>>::empty());
        } else {
            let ghost cb = views(cur@);
            cur.push(line.clone());
            assert(views(cur@) =~= cb.push(line@));
        }
        i = i + 1;
    }
    close_block_v(&mut blocks, &mut cur);
    (header, blocks)
}

fn binder_v(block: &Vec<Vec<char>>) -> (r: Option<Vec<char>>)
    ensures
        match r {
            Some(n) => binder(views(block@)) == Some(n@),
            None => binder(views(block@)) is None,
        },
{
    let ghost bv = views(block@);
    let mut i: usize = 0;
    assert(bv.skip(0) =~= bv);
    while i < block.len()
        invariant
            i <= block@.len(),
            bv == views(block@),
            binder(bv) == binder(bv.skip(i as int)),
        decreases block.len() - i,
    {
        let l = &block[i];
        assert(bv.skip(i as int)[0] == l@);
        assert(bv.skip(i as int).drop_first() =~= bv.skip(i + 1));
        let t = trim_start_v(l);
        let indented = l.len() > 0 && is_ws_exec(l[0]);
        let name = ident_prefix_v(&t);
        if !(indented || starts_with_str(&t, "--") || starts_with_str(&t, "[") || name.len() == 0) {
            return Some(name);
        }
        i = i + 1;
    }
    assert(bv.skip(block@.len() as int) =~= Seq::<Seq<char>>::empty());
    None
}

fn lookup_v(bs: &Vec<Option<Vec<char>>>, name: &Vec<char>) -> (r: Option<usize>)
    ensures
        match r {
            Some(i) => lookup(opt_views(bs@), name@) == Some(i as int) && i < bs@.len(),
            None => lookup(opt_views(bs@), name@) is None,
        },
{
    let ghost bv = opt_views(bs@);
    let mut i: usize = bs.len();
    assert(bv.take(bs@.len() as int) =~= bv);
    while i > 0
        invariant
            i <= bs@.len(),
            bv == opt_views(bs@),
            lookup(bv, name@) == lookup(bv.take(i as int), name@),
        decreases i,
    {
        assert(bv.take(i as int).drop_last() =~= bv.take(i - 1));
        assert(bv.take(i as int).last() == bv[i - 1]);
        let hit = match &bs[i - 1] {
            Some(b) => crate::text::eq_v(b, name),
            None => false,
        };
        if hit {
            return Some(i - 1);
        }
        i = i - 1;
    }
    None
}

pub open spec fn opt_views(v: Seq<Option<Vec<char>>>) -> Seq<Option<Seq<char>>> {
    v.map_values(
        |o: Option<Vec<char>>|
            match o {
                Some(x) => Some(x@),
                None => None,
            },
    )
}

pub proof fn lemma_lookup_range(bs: Seq<Option<Seq<char>>>, name: Seq<char>)
    ensures
        lookup(bs, name) matches Some(j) ==> 0 <= j < bs.len(),
    decreases bs.len(),
{
    if bs.len() > 0 && bs.last() != Some(name) {
        lemma_lookup_range(bs.drop_last(), name);
    }
}

/// The number of `false` entries.
pub open spec fn count_false(s: Seq<bool>) -> nat
    decreases s.len(),
{
    if s.len() == 0 {
        0
    } else {
        count_false(s.drop_last()) + if s.last() {
            0nat
        } else {
            1nat
        }
    }
}

proof fn lemma_count_false_set(s: Seq<bool>, x: int)
    requires
        0 <= x < s.len(),
        !s[x],
    ensures
        count_false(s.update(x, true)) + 1 == count_false(s),
    decreases s.len(),
{
    let t = s.update(x, true);
    if x == s.len() - 1 {
        assert(t.drop_last() =~= s.drop_last());
    } else {
        assert(t.drop_last() =~= s.drop_last().update(x, true));
        lemma_count_false_set(s.drop_last(), x);
    }
}

/// A set that holds the root and is closed under references holds every
/// reachable block.
proof fn lemma_closed_holds_reachable(
    blocks: Seq<Seq<Seq<char>>>,
    root: int,
    keep: Seq<bool>,
    d: nat,
    j: int,
)
    requires
        keep.len() == blocks.len(),
        0 <= root < blocks.len(),
        keep[root],
        forall|i: int, k: int|
            0 <= i < blocks.len() && keep[i] && #[trigger] refers(blocks[i], binders(blocks), k)
                ==> 0 <= k < blocks.len() && keep[k],
        reach_in(blocks, root, d, j),
    ensures
        0 <= j < blocks.len() && keep[j],
    decreases d,
{
    if d > 0 {
        if reach_in(blocks, root, (d - 1) as nat, j) {
            lemma_closed_holds_reachable(blocks, root, keep, (d - 1) as nat, j);
        } else {
            let i = choose|i: int|
                0 <= i < blocks.len() && reach_in(blocks, root, (d - 1) as nat, i) && #[trigger] refers(
                    blocks[i],
                    binders(blocks),
                    j,
                );
            lemma_closed_holds_reachable(blocks, root, keep, (d - 1) as nat, i);
        }
    }
}

/// Cuts a Core or STG dump down to the banner lines and the bindings
/// reachable from `ghcittyDump`. The dump also holds the session's
/// bindings, spliced into the module; those it does not use are dropped.
/// When no binding defines `ghcittyDump` the section is returned whole.
pub fn filter_reachable(section: &str) -> (r: String)
    ensures
        r@ == reachable_text(section@),
{
    let v = chars_of(section);
    let ls = lines_v(&v);
    let (header, blocks) = group_section(&ls);
    let ghost bv = block_views(blocks@);
    assert(bv == grouping_of(section@).1);
    let ghost bsv = binders(bv);
    let n = blocks.len();
    let mut bs: Vec<Option<Vec<char>>> = Vec::new();
    let mut i: usize = 0;
    while i < n
        invariant
            i <= n,
            n == blocks@.len(),
            bv == block_views(blocks@),
            bsv == binders(bv),
            opt_views(bs@) == bsv.take(i as int),
        decreases n - i,
    {
        let b = binder_v(&blocks[i]);
        let ghost before = opt_views(bs@);
        bs.push(b);
        assert(bv[i as int] == views(blocks@[i as int]@));
        assert(opt_views(bs@) =~= before.push(bsv[i as int]));
        assert(bsv.take(i + 1) =~= bsv.take(i as int).push(bsv[i as int]));
        i = i + 1;
    }
    assert(bsv.take(n as int) =~= bsv);
    let root_name = chars_of(BINDING);
    let root = match lookup_v(&bs, &root_name) {
        Some(r) => r,
        None => {
            return section.to_string();
        },
    };
    proof {
        lemma_lookup_range(bsv, BINDING@);
    }
    let mut keep: Vec<bool> = Vec::new();
    let mut z: usize = 0;
    while z < n
        invariant
            z <= n,
            keep@.len() == z,
            forall|q: int| 0 <= q < z ==> !keep@[q],
        decreases n - z,
    {
        keep.push(false);
        z = z + 1;
    }
    let mut stack: Vec<usize> = Vec::new();
    stack.push(root);
    proof {
        assert(reach_in(bv, root as int, 0, root as int));
        assert(stack@[0] == root);
    }
    while stack.len() > 0
        invariant
            n == bv.len(),
            n == blocks@.len(),
            bv == block_views(blocks@),
            bsv == binders(bv),
            opt_views(bs@) == bsv,
            root < n,
            keep@.len() == n,
            forall|k: int| 0 <= k < stack@.len() ==> #[trigger] stack@[k] < n,
            forall|q: int| 0 <= q < n && keep@[q] ==> reachable(bv, root as int, q),
            forall|k: int| 0 <= k < stack@.len() ==> reachable(bv, root as int, #[trigger] stack@[k] as int),
            forall|q: int, j: int|
                0 <= q < n && keep@[q] && #[trigger] refers(bv[q], bsv, j) ==> 0 <= j < n && (keep@[j]
                    || stack@.contains(j as usize)),
            keep@[root as int] || stack@.contains(root),
        decreases count_false(keep@), stack@.len(),
    {
        let ghost old_stack = stack@;
        let ghost old_keep = keep@;
        let x = stack.pop().unwrap();
        assert(old_stack.last() == x);
        assert(stack@ =~= old_stack.drop_last());
        assert(reachable(bv, root as int, x as int)) by {
            assert(old_stack[old_stack.len() - 1] == x);
        }
        if keep[x] {
            assert forall|q: int, j: int|
                0 <= q < n && keep@[q] && #[trigger] refers(bv[q], bsv, j) implies 0 <= j < n && (
                keep@[j] || stack@.contains(j as usize)) by {
                if !keep@[j] {
                    assert(old_stack.contains(j as usize));
                    let w = choose|w: int| 0 <= w < old_stack.len() && old_stack[w] == j as usize;
                    assert(w != old_stack.len() - 1);
                    assert(stack@[w] == j as usize);
                }
            }
            assert(keep@[root as int] || stack@.contains(root)) by {
                if !keep@[root as int] {
                    let w = choose|w: int| 0 <= w < old_stack.len() && old_stack[w] == root;
                    assert(w != old_stack.len() - 1);
                    assert(stack@[w] == root);
                }
            }
            continue;
        }
        proof {
            lemma_count_false_set(keep@, x as int);
        }
        keep.set(x, true);
        let ghost d = choose|d: nat| #[trigger] reach_in(bv, root as int, d, x as int);
        let block = &blocks[x];
        assert(bv[x as int] == views(block@));
        let mut l: usize = 0;
        while l < block.len()
            invariant
                n == bv.len(),
                n == blocks@.len(),
                bv == block_views(blocks@),
                bsv == binders(bv),
                opt_views(bs@) == bsv,
                root < n,
                x < n,
                *block == blocks@[x as int],
                bv[x as int] == views(block@),
                old_keep.len() == n,
                keep@ == old_keep.update(x as int, true),
                !old_keep[x as int],
                old_stack.last() == x,
                stack@.len() >= old_stack.len() - 1,
                forall|k: int| 0 <= k < old_stack.len() - 1 ==> stack@[k] == old_stack[k],
                reach_in(bv, root as int, d, x as int),
                l <= block@.len(),
                forall|k: int| 0 <= k < stack@.len() ==> #[trigger] stack@[k] < n,
                forall|k: int| 0 <= k < stack@.len() ==> reachable(bv, root as int, #[trigger] stack@[k] as int),
                forall|a: int, b: int|
                    0 <= a < l && 0 <= b < ident_tokens(bv[x as int][a]).len() ==> match lookup(
                        bsv,
                        #[trigger] ident_tokens(bv[x as int][a])[b],
                    ) {
                        Some(j) => keep@[j] || stack@.contains(j as usize),
                        None => true,
                    },
            decreases block.len() - l,
        {
            let toks = ident_tokens_v(&block[l]);
            assert(views(toks@) == ident_tokens(bv[x as int][l as int]));
            let mut k: usize = 0;
            while k < toks.len()
                invariant
                    n == bv.len(),
                    bv == block_views(blocks@),
                    bsv == binders(bv),
                    opt_views(bs@) == bsv,
                    x < n,
                    bv[x as int] == views(block@),
                    old_keep.len() == n,
                    keep@ == old_keep.update(x as int, true),
                    old_stack.last() == x,
                    stack@.len() >= old_stack.len() - 1,
                    forall|q: int| 0 <= q < old_stack.len() - 1 ==> stack@[q] == old_stack[q],
                    reach_in(bv, root as int, d, x as int),
                    l < block@.len(),
                    views(toks@) == ident_tokens(bv[x as int][l as int]),
                    k <= toks@.len(),
                    forall|q: int| 0 <= q < stack@.len() ==> #[trigger] stack@[q] < n,
                    forall|q: int| 0 <= q < stack@.len() ==> reachable(bv, root as int, #[trigger] stack@[q] as int),
                    forall|a: int, b: int|
                        0 <= a < l && 0 <= b < ident_tokens(bv[x as int][a]).len() ==> match lookup(
                            bsv,
                            #[trigger] ident_tokens(bv[x as int][a])[b],
                        ) {
                            Some(j) => keep@[j] || stack@.contains(j as usize),
                            None => true,
                        },
                    forall|b: int|
                        0 <= b < k ==> match lookup(
                            bsv,
                            #[trigger] ident_tokens(bv[x as int][l as int])[b],
                        ) {
                            Some(j) => keep@[j] || stack@.contains(j as usize),
                            None => true,
                        },
                decreases toks.len() - k,
            {
                let ghost tk = ident_tokens(bv[x as int][l as int])[k as int];
                assert(toks@[k as int]@ == tk);
                match lookup_v(&bs, &toks[k]) {
                    Some(j) => {
                        proof {
                            lemma_lookup_range(bsv, tk);
                            assert(refers(bv[x as int], bsv, j as int));
                            assert(reach_in(bv, root as int, d + 1, j as int));
                            assert(reachable(bv, root as int, j as int));
                        }
                        if !keep[j] {
                            let ghost s0 = stack@;
                            stack.push(j);
                            assert(stack@ =~= s0.push(j));
                            assert(stack@[s0.len() as int] == j);
                            assert forall|a: int, b: int|
                                0 <= a < l && 0 <= b < ident_tokens(bv[x as int][a]).len() implies match lookup(
                                    bsv,
                                    #[trigger] ident_tokens(bv[x as int][a])[b],
                                ) {
                                    Some(j2) => keep@[j2] || stack@.contains(j2 as usize),
                                    None => true,
                                } by {
                                match lookup(bsv, ident_tokens(bv[x as int][a])[b]) {
                                    Some(j2) => {
                                        if !keep@[j2] {
                                            let w = choose|w: int| 0 <= w < s0.len() && s0[w] == j2 as usize;
                                            assert(stack@[w] == j2 as usize);
                                        }
                                    },
                                    None => {},
                                }
                            }
                            assert forall|b: int|
                                0 <= b < k + 1 implies match lookup(
                                    bsv,
                                    #[trigger] ident_tokens(bv[x as int][l as int])[b],
                                ) {
                                    Some(j2) => keep@[j2] || stack@.contains(j2 as usize),
                                    None => true,
                                } by {
                                match lookup(bsv, ident_tokens(bv[x as int][l as int])[b]) {
                                    Some(j2) => {
                                        if b < k && !keep@[j2] {
                                            let w = choose|w: int| 0 <= w < s0.len() && s0[w] == j2 as usize;
                                            assert(stack@[w] == j2 as usize);
                                        } else if b == k {
                                            assert(stack@[s0.len() as int] == j2 as usize);
                                        }
                                    },
                                    None => {},
                                }
                            }
                        }
                    },
                    None => {},
                }
                k = k + 1;
            }
            l = l + 1;
        }
        proof {
            assert forall|q: int, j: int|
                0 <= q < n && keep@[q] && #[trigger] refers(bv[q], bsv, j) implies 0 <= j < n && (
                keep@[j] || stack@.contains(j as usize)) by {
                let (a, b) = choose|a: int, b: int|
                    0 <= a < bv[q].len() && 0 <= b < ident_tokens(bv[q][a]).len() && lookup(
                        bsv,
                        #[trigger] ident_tokens(bv[q][a])[b],
                    ) == Some(j);
                lemma_lookup_range(bsv, ident_tokens(bv[q][a])[b]);
                if q != x as int {
                    assert(old_keep[q]);
                    if !keep@[j] {
                        assert(old_stack.contains(j as usize));
                        let w = choose|w: int| 0 <= w < old_stack.len() && old_stack[w] == j as usize;
                        assert(w != old_stack.len() - 1);
                        assert(stack@[w] == j as usize);
                    }
                }
            }
            assert forall|q: int| 0 <= q < n && keep@[q] implies reachable(bv, root as int, q) by {
                if q == x as int {
                    assert(reach_in(bv, root as int, d, x as int));
                } else {
                    assert(old_keep[q]);
                }
            }
            assert(keep@[root as int] || stack@.contains(root)) by {
                if !keep@[root as int] {
                    let w = choose|w: int| 0 <= w < old_stack.len() && old_stack[w] == root;
                    assert(w != old_stack.len() - 1);
                    assert(stack@[w] == root);
                }
            }
        }
    }
    proof {
        assert(keep@[root as int]);
        assert forall|j: int| 0 <= j < n implies keep@[j] == reachable(bv, root as int, j) by {
            if reachable(bv, root as int, j) {
                let dd = choose|dd: nat| #[trigger] reach_in(bv, root as int, dd, j);
                lemma_closed_holds_reachable(bv, root as int, keep@, dd, j);
            }
        }
    }
    let ghost keepf = |j: int| reachable(bv, root as int, j);
    let mut out: Vec<Vec<char>> = Vec::new();
    let mut h: usize = 0;
    while h < header.len()
        invariant
            h <= header@.len(),
            views(out@) == views(header@).take(h as int),
        decreases header.len() - h,
    {
        let ghost o0 = views(out@);
        out.push(header[h].clone());
        assert(views(out@) =~= o0.push(header@[h as int]@));
        assert(views(header@).take(h + 1) =~= views(header@).take(h as int).push(header@[h as int]@));
        h = h + 1;
    }
    assert(views(header@).take(header@.len() as int) =~= views(header@));
    let mut b: usize = 0;
    while b < n
        invariant
            b <= n,
            n == bv.len(),
            n == blocks@.len(),
            bv == block_views(blocks@),
            keep@.len() == n,
            forall|j: int| 0 <= j < n ==> keep@[j] == keepf(j),
            views(out@) == kept_lines(views(header@), bv, keepf, b as int),
        decreases n - b,
    {
        if keep[b] {
            if out.len() > 0 {
                let ghost o0 = views(out@);
                out.push(Vec::new());
                assert(views(out@) =~= o0.push(seq![]));
            }
            let ghost o1 = views(out@);
            let blk = &blocks[b];
            let mut q: usize = 0;
            while q < blk.len()
                invariant
                    q <= blk@.len(),
                    views(out@) == o1 + views(blk@).take(q as int),
                decreases blk.len() - q,
            {
                let ghost o2 = views(out@);
                out.push(blk[q].clone());
                assert(views(out@) =~= o2.push(blk@[q as int]@));
                assert(views(blk@).take(q + 1) =~= views(blk@).take(q as int).push(blk@[q as int]@));
                assert(views(out@) =~= o1 + views(blk@).take(q + 1));
                q = q + 1;
            }
            assert(views(blk@).take(blk@.len() as int) =~= views(blk@));
            assert(bv[b as int] == views(blk@));
        }
        b = b + 1;
    }
    let mut nl: Vec<char> = Vec::new();
    nl.push('\n');
    assert(nl@ =~= seq!['\n']);
    let joined = join_v(&out, &nl);
    string_of(&trim_end_v(&joined))
}

// ---------------------------------------------------------------------------
// Cmm
// ---------------------------------------------------------------------------

pub open spec fn is_cmm_banner(line: Seq<char>) -> bool {
    starts_with(trim_start(line), "==================== Output Cmm"@)
}

/// The chunks of a Cmm dump read so far, and the chunk being read: a new
/// chunk starts at each `Output Cmm` banner.
pub open spec fn cmm_chunks(ls: Seq<Seq<char>>, k: int) -> (Seq<Seq<Seq<char>>>, Seq<Seq<char>>)
    decreases k,
{
    if k <= 0 {
        (seq![], seq![])
    } else {
        let prev = cmm_chunks(ls, k - 1);
        let line = ls[k - 1];
        if is_cmm_banner(line) && prev.1.len() > 0 {
            (prev.0.push(prev.1), seq![line])
        } else {
            (prev.0, prev.1.push(line))
        }
    }
}

/// Some line of the chunk mentions `ghcittyDump`.
pub open spec fn mentions_binding(chunk: Seq<Seq<char>>) -> bool {
    exists|i: int| 0 <= i < chunk.len() && contains(#[trigger] chunk[i], BINDING@)
}

/// The chunks that mention `ghcittyDump`, each as text without trailing
/// blank lines.
pub open spec fn kept_chunks(chunks: Seq<Seq<Seq<char>>>, k: int) -> Seq<Seq<char>>
    decreases k,
{
    if k <= 0 {
        seq![]
    } else {
        let prev = kept_chunks(chunks, k - 1);
        if mentions_binding(chunks[k - 1]) {
            prev.push(trim_end(join(chunks[k - 1], seq!['\n'])))
        } else {
            prev
        }
    }
}

/// A Cmm dump cut down to the chunks of `ghcittyDump` and the symbols
/// floated out of it; the whole section when no chunk mentions it.
pub open spec fn cmm_text(section: Seq<char>) -> Seq<char> {
    let ls = lines(section);
    let c = cmm_chunks(ls, ls.len() as int);
    let chunks = close_block(c.0, c.1);
    let kept = kept_chunks(chunks, chunks.len() as int);
    if kept.len() == 0 {
        section
    } else {
        join(kept, seq!['\n', '\n'])
    }
}

fn mentions_binding_v(chunk: &Vec<Vec<char>>) -> (r: bool)
    ensures
        r == mentions_binding(views(chunk@)),
{
    let mut i: usize = 0;
    while i < chunk.len()
        invariant
            i <= chunk@.len(),
            forall|q: int| 0 <= q < i ==> !contains(#[trigger] views(chunk@)[q], BINDING@),
        decreases chunk.len() - i,
    {
        assert(views(chunk@)[i as int] == chunk@[i as int]@);
        if contains_str(&chunk[i], BINDING) {
            return true;
        }
        i = i + 1;
    }
    false
}

/// Keeps the chunks of a Cmm dump that belong to `ghcittyDump`: GHC writes
/// one `Output Cmm` banner per top-level symbol, and the spliced session
/// bindings get symbols of their own. Returns the whole section when no
/// chunk matched.
pub fn filter_cmm(section: &str) -> (r: String)
    ensures
        r@ == cmm_text(section@),
{
    let v = chars_of(section);
    let ls = lines_v(&v);
    let ghost lsv = views(ls@);
    let mut chunks: Vec<Vec<Vec<char>>> = Vec::new();
    let mut cur: Vec<Vec<char>> = Vec::new();
    let mut i: usize = 0;
    while i < ls.len()
        invariant
            i <= ls@.len(),
            lsv == views(ls@),
            block_views(chunks@) == cmm_chunks(lsv, i as int).0,
            views(cur@) == cmm_chunks(lsv, i as int).1,
        decreases ls.len() - i,
    {
        let line = &ls[i];
        assert(lsv[i as int] == line@);
        let t = trim_start_v(line);
        if starts_with_str(&t, "==================== Output Cmm") && cur.len() > 0 {
            let mut c: Vec<Vec<char>> = Vec::new();
            std::mem::swap(&mut c, &mut cur);
            let ghost cb = block_views(chunks@);
            chunks.push(c);
            assert(block_views(chunks@) =~= cb.push(views(c@)));
            cur.push(line.clone());
            assert(views(cur@) =~= seq![line@]);
        } else {
            let ghost c0 = views(cur@);
            cur.push(line.clone());
            assert(views(cur@) =~= c0.push(line@));
        }
        i = i + 1;
    }
    close_block_v(&mut chunks, &mut cur);
    let ghost cv = block_views(chunks@);
    let mut kept: Vec<Vec<char>> = Vec::new();
    let mut nl: Vec<char> = Vec::new();
    nl.push('\n');
    assert(nl@ =~= seq!['\n']);
    let mut k: usize = 0;
    while k < chunks.len()
        invariant
            k <= chunks@.len(),
            cv == block_views(chunks@),
            nl@ == seq!['\n'],
            views(kept@) == kept_chunks(cv, k as int),
        decreases chunks.len() - k,
    {
        assert(cv[k as int] == views(chunks@[k as int]@));
        if mentions_binding_v(&chunks[k]) {
            let j = join_v(&chunks[k], &nl);
            let t = trim_end_v(&j);
            let ghost k0 = views(kept@);
            kept.push(t);
            assert(views(kept@) =~= k0.push(trim_end(join(cv[k as int], seq!['\n']))));
        }
        k = k + 1;
    }
    if kept.len() == 0 {
        return section.to_string();
    }
    let mut sep: Vec<char> = Vec::new();
    sep.push('\n');
    sep.push('\n');
    assert(sep@ =~= seq!['\n', '\n']);
    string_of(&join_v(&kept, &sep))
}

// ---------------------------------------------------------------------------
// Output
// ---------------------------------------------------------------------------

/// A dump line: banners and size notes dimmed, the rest highlighted.
pub open spec fn dump_line(line: Seq<char>) -> Seq<char> {
    let t = trim_start(line);
    (if starts_with(t, "===="@) || starts_with(t, "Result size"@) || starts_with(t, "= {"@) {
        painted(dim_style(), line)
    } else {
        highlight_spec(line)
    }) + "\n"@
}

pub open spec fn dump_lines(ls: Seq<Seq<char>>, k: int) -> Seq<char>
    decreases k,
{
    if k <= 0 {
        seq![]
    } else {
        dump_lines(ls, k - 1) + dump_line(ls[k - 1])
    }
}

/// Highlights a dump line by line.
pub fn render(section: &str) -> (r: String)
    ensures
        r@ == dump_lines(lines(section@), lines(section@).len() as int),
{
    let v = chars_of(section);
    let ls = lines_v(&v);
    let ghost lsv = views(ls@);
    let mut out = String::new();
    let mut i: usize = 0;
    while i < ls.len()
        invariant
            i <= ls@.len(),
            lsv == views(ls@),
            out@ == dump_lines(lsv, i as int),
        decreases ls.len() - i,
    {
        let line = &ls[i];
        assert(lsv[i as int] == line@);
        let t = trim_start_v(line);
        let ls_str = string_of(line);
        if starts_with_str(&t, "====") || starts_with_str(&t, "Result size") || starts_with_str(
            &t,
            "= {",
        ) {
            let p = crate::style::paint(crate::style::dim(), ls_str.as_str());
            out.append(p.as_str());
        } else {
            out.append(highlight_input(ls_str.as_str()).as_str());
        }
        out.append("\n");
        i = i + 1;
    }
    out
}

/// What the compiler's output gives: the highlighted dump, cut down to
/// what `ghcittyDump` uses; or, when there is no dump, GHC's error text.
pub open spec fn dump_outcome_spec(kind: DumpKind, stdout: Seq<char>, stderr: Seq<char>) -> Result<Seq<char>, Seq<char>> {
    let section = section_of(stdout);
    if trim(section).len() == 0 {
        Err(
            if trim(stderr).len() == 0 {
                "no output produced (does the expression typecheck?)"@
            } else {
                trim(stderr)
            },
        )
    } else {
        let filtered = match kind {
            DumpKind::Cmm => cmm_text(section),
            _ => reachable_text(section),
        };
        Ok(dump_lines(lines(filtered), lines(filtered).len() as int))
    }
}

/// Reads the compiler's output for a dump.
pub fn dump_outcome(kind: DumpKind, stdout: &str, stderr: &str) -> (r: Result<String, String>)
    ensures
        match dump_outcome_spec(kind, stdout@, stderr@) {
            Ok(t) => r matches Ok(s) && s@ == t,
            Err(e) => r matches Err(m) && m@ == e,
        },
{
    let section = extract_section(stdout);
    let sv = chars_of(section.as_str());
    if trim_v(&sv).len() == 0 {
        let ev = trim_v(&chars_of(stderr));
        if ev.len() == 0 {
            return Err("no output produced (does the expression typecheck?)".to_string());
        }
        return Err(string_of(&ev));
    }
    let filtered = match kind {
        DumpKind::Cmm => filter_cmm(section.as_str()),
        _ => filter_reachable(section.as_str()),
    };
    Ok(render(filtered.as_str()))
}

} // verus!
