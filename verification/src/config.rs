//! The configuration document and its section-indexed mutation engine.

use vstd::prelude::*;

use crate::model::closes_section;
use crate::model::doc_wf;
use crate::model::entry_value;
use crate::model::lemma_drop_braces_at;
use crate::model::is_entry;
use crate::model::lemma_index_wf;
use crate::model::line_matches;
use crate::model::line_ok;
use crate::model::opens_section;
use crate::model::path_join;
use crate::model::sec_name;
use crate::model::sec_wf;
use crate::model::find_sec;
use crate::model::find_sec_from;
use crate::model::find_entry_from;
use crate::model::lookup_doc;
use crate::model::get_path;
use crate::model::get_key;
use crate::model::sourced_lookup;
use crate::model::spec_get;
use crate::model::source_key;
use crate::model::indent_sp;
use crate::model::head_line;
use crate::model::close_line;
use crate::model::entry_line;
use crate::model::insert_lines;
use crate::model::lemma_insert_lines_index;
use crate::model::shift_secs;
use crate::model::top_insert_pos;
use crate::model::valid_seg;
use crate::model::valid_path;
use crate::model::seg_block;
use crate::model::prefix_of;
use crate::model::apply_seg;
use crate::model::apply_segs;
use crate::model::apply_upsert;
use crate::model::init_state;
use crate::model::spec_add_entry;
use crate::model::st_inv;
use crate::model::lemma_apply_seg_inv;
use crate::model::lemma_apply_upsert_wf;
use crate::model::lemma_insert_lines_concat;
use crate::model::key_of;
use crate::model::UpState;
use crate::model::spec_index;
use crate::model::spec_sources;
use crate::model::sources_rec;
use crate::model::index_rec;
use crate::model::stack_names;
use crate::model::starts_with;
use crate::model::wf;
use crate::model::ConfigV;
use crate::model::DocV;
use crate::model::SecV;
use crate::text::is_ws;
use crate::text::is_ws_char;
use crate::text::join_with;
use crate::text::lemma_find_char_at;
use crate::text::lemma_join_push;
use crate::text::lemma_split_basic;
use crate::text::lemma_trim_back_at;
use crate::text::lemma_trim_front_at;
use crate::text::split_on;
use crate::text::split_sep;
use crate::text::str_eq;
use crate::text::trim;
use crate::text::trim_str;
use crate::text::views;

verus! {

/// What an edit can report.
#[derive(Debug, PartialEq, Eq, Structural)]
pub enum ConfigError {
    /// The category path held an empty segment, or one that would
    /// synthesize a comment instead of a section header.
    InvalidPath,
}

/// A tracked section: its dotted path and the line indices of its opening
/// and closing brace lines.
pub struct Section {
    pub path: String,
    pub start: usize,
    pub end: usize,
}

impl View for Section {
    type V = SecV;

    open spec fn view(&self) -> SecV {
        SecV { path: self.path@, start: self.start as int, end: self.end as int }
    }
}

/// A sourced document: the path it was included from, its lines and its own
/// section index. Sourced documents are lookup targets only, never mutated.
pub struct SourcedDoc {
    pub path: String,
    pub content: Vec<String>,
    pub sections: Vec<Section>,
}

/// The views of a sequence of sections.
pub open spec fn sec_views(ss: Seq<Section>) -> Seq<SecV> {
    ss.map_values(|s: Section| s@)
}

impl View for SourcedDoc {
    type V = DocV;

    open spec fn view(&self) -> DocV {
        DocV { path: self.path@, lines: views(self.content@), secs: sec_views(self.sections@) }
    }
}

/// The views of a sequence of sourced documents.
pub open spec fn doc_views(ds: Seq<SourcedDoc>) -> Seq<DocV> {
    ds.map_values(|d: SourcedDoc| d@)
}

/// A parsed configuration document: its raw lines, the index of its section
/// ranges, the documents registered from `source` entries, and the paths
/// those entries name.
pub struct HyprlandConfig {
    pub content: Vec<String>,
    pub sections: Vec<Section>,
    pub sourced: Vec<SourcedDoc>,
    pub source_paths: Vec<String>,
}

impl View for HyprlandConfig {
    type V = ConfigV;

    open spec fn view(&self) -> ConfigV {
        ConfigV {
            lines: views(self.content@),
            secs: sec_views(self.sections@),
            sourced: doc_views(self.sourced@),
            source_paths: views(self.source_paths@),
        }
    }
}

/// Whether the line opens a section.
fn opens_check(line: &str) -> (r: bool)
    ensures
        r == opens_section(line@),
{
    let t = trim_str(line);
    let n = t.unicode_len();
    n > 0 && t.get_char(0) != '#' && t.get_char(n - 1) == '{'
}

/// Whether the line closes a section.
fn closes_check(line: &str) -> (r: bool)
    ensures
        r == closes_section(line@),
{
    let t = trim_str(line);
    let n = t.unicode_len();
    if n == 1 {
        let c = t.get_char(0);
        proof {
            if c == '}' {
                assert(t@ =~= seq!['}']);
            } else {
                assert(t@ != seq!['}']);
            }
        }
        c == '}'
    } else {
        proof {
            assert(t@.len() != 1);
            assert(t@ != seq!['}']);
        }
        false
    }
}

/// The section name declared by an opening line.
fn section_name(line: &str) -> (r: String)
    ensures
        r@ == sec_name(line@),
{
    let t = trim_str(line);
    let n = t.unicode_len();
    let mut e: usize = n;
    while e > 0 && t.get_char(e - 1) == '{'
        invariant
            n == t@.len(),
            0 <= e <= n,
            forall|j: int| e <= j < n ==> t@[j] == '{',
        decreases e,
    {
        e = e - 1;
    }
    proof {
        lemma_drop_braces_at(t@, e as int);
    }
    let mut b: usize = e;
    while b > 0 && is_ws_char(t.get_char(b - 1))
        invariant
            n == t@.len(),
            0 <= b <= e <= n,
            forall|j: int| b <= j < e ==> is_ws(t@[j]),
        decreases b,
    {
        b = b - 1;
    }
    proof {
        lemma_trim_back_at(t@.subrange(0, e as int), b as int);
        assert(t@.subrange(0, e as int).subrange(0, b as int) =~= t@.subrange(0, b as int));
    }
    String::from_str(t.substring_char(0, b))
}

/// The views of an indexing stack.
pub open spec fn stack_views(st: Seq<(String, usize)>) -> Seq<(Seq<char>, int)> {
    st.map_values(|e: (String, usize)| (e.0@, e.1 as int))
}

/// The dotted path of the sections currently open, bottom first.
fn join_names(stack: &Vec<(String, usize)>) -> (r: String)
    ensures
        r@ == path_join(stack_names(stack_views(stack@))),
{
    let ghost names = stack_names(stack_views(stack@));
    let mut r = String::new();
    let mut k: usize = 0;
    proof {
        reveal_strlit(".");
        assert(names.take(0) =~= Seq::<Seq<char>>::empty());
    }
    while k < stack.len()
        invariant
            0 <= k <= stack.len(),
            names == stack_names(stack_views(stack@)),
            names.len() == stack.len(),
            forall|j: int| 0 <= j < stack.len() ==> names[j] == (#[trigger] stack@[j]).0@,
            r@ == join_with(names.take(k as int), '.'),
            "."@ =~= seq!['.'],
        decreases stack.len() - k,
    {
        if k > 0 {
            r.append(".");
        }
        r.append(stack[k].0.as_str());
        proof {
            lemma_join_push(names.take(k as int), names[k as int], '.');
            assert(names.take(k + 1) =~= names.take(k as int).push(names[k as int]));
        }
        k = k + 1;
    }
    proof {
        assert(names.take(stack@.len() as int) =~= names);
    }
    r
}

/// Whether the line carries an entry for `key`.
fn line_matches_exec(line: &str, key: &str) -> (r: bool)
    ensures
        r == line_matches(line@, key@),
{
    let t = trim_str(line);
    let tn = t.unicode_len();
    let kn = key.unicode_len();
    if kn > tn {
        return false;
    }
    let mut i: usize = 0;
    while i < kn
        invariant
            t@ == trim(line@),
            tn == t@.len(),
            kn == key@.len(),
            kn <= tn,
            0 <= i <= kn,
            forall|j: int| 0 <= j < i ==> t@[j] == key@[j],
        decreases kn - i,
    {
        if t.get_char(i) != key.get_char(i) {
            proof {
                assert(t@.take(kn as int)[i as int] != key@[i as int]);
                assert(t@.take(kn as int) != key@);
                assert(!starts_with(t@, key@));
                assert(!line_matches(line@, key@));
            }
            return false;
        }
        i = i + 1;
    }
    proof {
        assert(t@.take(kn as int) =~= key@);
    }
    let mut j: usize = kn;
    while j < tn && is_ws_char(t.get_char(j))
        invariant
            tn == t@.len(),
            kn <= j <= tn,
            forall|m: int| kn <= m < j ==> is_ws(t@[m]),
        decreases tn - j,
    {
        j = j + 1;
    }
    proof {
        lemma_trim_front_at(t@.skip(kn as int), j - kn);
        assert(t@.skip(kn as int).subrange(j - kn, t@.skip(kn as int).len() as int) =~= t@.subrange(
            j as int,
            tn as int,
        ));
    }
    if j == tn {
        true
    } else {
        t.get_char(j) == '='
    }
}

/// Whether the line is an entry for `key`: it matches the key and is not a
/// brace line.
fn is_entry_exec(line: &str, key: &str) -> (r: bool)
    ensures
        r == is_entry(line@, key@),
{
    line_matches_exec(line, key) && !opens_check(line) && !closes_check(line)
}

/// The value carried by an entry line.
fn entry_value_exec(line: &str) -> (r: String)
    ensures
        r@ == entry_value(line@),
{
    let t = trim_str(line);
    let tn = t.unicode_len();
    let mut p: usize = 0;
    while p < tn && t.get_char(p) != '='
        invariant
            tn == t@.len(),
            0 <= p <= tn,
            forall|j: int| 0 <= j < p ==> t@[j] != '=',
        decreases tn - p,
    {
        p = p + 1;
    }
    proof {
        lemma_find_char_at(t@, '=', p as int);
    }
    if p < tn {
        let v = trim_str(t.substring_char(p + 1, tn));
        proof {
            assert(t@.subrange(p + 1, tn as int) =~= t@.skip(p + 1));
        }
        String::from_str(v)
    } else {
        String::new()
    }
}

/// The key of an entry string: the text before its first `=`, trimmed.
fn key_of_exec(entry: &str) -> (r: String)
    ensures
        r@ == key_of(entry@),
{
    let t = trim_str(entry);
    let tn = t.unicode_len();
    let mut p: usize = 0;
    while p < tn && t.get_char(p) != '='
        invariant
            tn == t@.len(),
            0 <= p <= tn,
            forall|j: int| 0 <= j < p ==> t@[j] != '=',
        decreases tn - p,
    {
        p = p + 1;
    }
    proof {
        lemma_find_char_at(t@, '=', p as int);
    }
    if p < tn {
        let mut b: usize = p;
        while b > 0 && is_ws_char(t.get_char(b - 1))
            invariant
                tn == t@.len(),
                0 <= b <= p <= tn,
                forall|j: int| b <= j < p ==> is_ws(t@[j]),
            decreases b,
        {
            b = b - 1;
        }
        proof {
            lemma_trim_back_at(t@.take(p as int), b as int);
            assert(t@.take(p as int).subrange(0, b as int) =~= t@.subrange(0, b as int));
        }
        String::from_str(t.substring_char(0, b))
    } else {
        String::from_str(t)
    }
}

/// The section index of a document: one left-to-right pass with a stack of
/// open sections.
fn build_index(lines: &Vec<String>) -> (r: Vec<Section>)
    ensures
        sec_views(r@) == spec_index(views(lines@)),
{
    let ghost lv = views(lines@);
    let mut acc: Vec<Section> = Vec::new();
    let mut stack: Vec<(String, usize)> = Vec::new();
    let mut i: usize = 0;
    proof {
        assert(stack_views(stack@) =~= Seq::<(Seq<char>, int)>::empty());
        assert(sec_views(acc@) =~= Seq::<SecV>::empty());
    }
    while i < lines.len()
        invariant
            0 <= i <= lines.len(),
            lv == views(lines@),
            lv.len() == lines.len(),
            index_rec(lv, i as int, stack_views(stack@), sec_views(acc@)) == spec_index(lv),
        decreases lines.len() - i,
    {
        let ghost old_stack = stack@;
        let ghost old_acc = acc@;
        proof {
            assert(lv[i as int] == lines@[i as int]@);
        }
        if opens_check(lines[i].as_str()) {
            let name = section_name(lines[i].as_str());
            stack.push((name, i));
            proof {
                assert(stack_views(stack@) =~= stack_views(old_stack).push(
                    (sec_name(lv[i as int]), i as int),
                ));
            }
        } else if closes_check(lines[i].as_str()) && stack.len() > 0 {
            let path = join_names(&stack);
            let top = stack.pop().unwrap();
            let rec = Section { path, start: top.1, end: i };
            acc.push(rec);
            proof {
                let topv = stack_views(old_stack).last();
                assert(topv.1 == old_stack.last().1 as int);
                assert(stack_views(stack@) =~= stack_views(old_stack).drop_last());
                assert(sec_views(acc@) =~= sec_views(old_acc).push(
                    SecV { path: path_join(stack_names(stack_views(old_stack))), start: topv.1, end: i as int },
                ));
            }
        } else {
        }
        i = i + 1;
    }
    acc
}

/// The paths named by `source` entries, in document order.
fn collect_sources(lines: &Vec<String>) -> (r: Vec<String>)
    ensures
        views(r@) == spec_sources(views(lines@)),
{
    let ghost lv = views(lines@);
    let mut acc: Vec<String> = Vec::new();
    let mut i: usize = 0;
    proof {
        reveal_strlit("source");
        assert("source"@ =~= source_key());
        assert(views(acc@) =~= Seq::<Seq<char>>::empty());
        assert(Seq::<Seq<char>>::empty() + sources_rec(lv, 0) =~= sources_rec(lv, 0));
    }
    while i < lines.len()
        invariant
            0 <= i <= lines.len(),
            lv == views(lines@),
            lv.len() == lines.len(),
            "source"@ == source_key(),
            views(acc@) + sources_rec(lv, i as int) =~= spec_sources(lv),
        decreases lines.len() - i,
    {
        let ghost old_acc = acc@;
        proof {
            assert(lv[i as int] == lines@[i as int]@);
        }
        if is_entry_exec(lines[i].as_str(), "source") {
            let v = entry_value_exec(lines[i].as_str());
            acc.push(v);
            proof {
                assert(views(acc@) =~= views(old_acc).push(entry_value(lv[i as int])));
                assert(views(old_acc).push(entry_value(lv[i as int])) + sources_rec(lv, i + 1)
                    =~= views(old_acc) + (seq![entry_value(lv[i as int])] + sources_rec(
                    lv,
                    i + 1,
                )));
            }
        }
        i = i + 1;
    }
    proof {
        assert(views(acc@) + sources_rec(lv, lines.len() as int) =~= views(acc@));
    }
    acc
}

/// Four spaces per nesting level.
fn make_indent(depth: usize) -> (r: String)
    ensures
        r@ == indent_sp(depth as int),
{
    let mut r = String::new();
    let mut k: usize = 0;
    proof {
        reveal_strlit("    ");
        assert("    "@ =~= seq![' ', ' ', ' ', ' ']);
    }
    while k < depth
        invariant
            0 <= k <= depth,
            r@ == indent_sp(k as int),
            "    "@ == seq![' ', ' ', ' ', ' '],
        decreases depth - k,
    {
        r.append("    ");
        k = k + 1;
    }
    r
}

/// The opening line of a synthesized section block.
fn make_head(depth: usize, seg: &str) -> (r: String)
    ensures
        r@ == head_line(depth as int, seg@),
{
    let mut r = make_indent(depth);
    r.append(seg);
    proof {
        reveal_strlit(" {");
        assert(" {"@ =~= seq![' ', '{']);
    }
    r.append(" {");
    proof {
        assert(r@ =~= indent_sp(depth as int) + seg@ + seq![' ', '{']);
    }
    r
}

/// The closing line of a synthesized section block.
fn make_close(depth: usize) -> (r: String)
    ensures
        r@ == close_line(depth as int),
{
    let mut r = make_indent(depth);
    proof {
        reveal_strlit("}");
        assert("}"@ =~= seq!['}']);
    }
    r.append("}");
    r
}

/// The line written for an entry at the given depth.
fn make_entry_line(depth: usize, entry: &str) -> (r: String)
    ensures
        r@ == entry_line(depth as int, entry@),
{
    let mut r = make_indent(depth);
    r.append(trim_str(entry));
    r
}

/// Whether one path segment is usable.
fn valid_seg_exec(seg: &str) -> (r: bool)
    ensures
        r == valid_seg(seg@),
{
    let n = seg.unicode_len();
    if n == 0 {
        return false;
    }
    let mut a: usize = 0;
    while a < n && is_ws_char(seg.get_char(a))
        invariant
            n == seg@.len(),
            0 <= a <= n,
            forall|j: int| 0 <= j < a ==> is_ws(seg@[j]),
        decreases n - a,
    {
        a = a + 1;
    }
    proof {
        lemma_trim_front_at(seg@, a as int);
    }
    if a == n {
        true
    } else {
        seg.get_char(a) != '#'
    }
}

/// Whether every segment of a split path is usable.
fn check_segs(segs: &Vec<String>) -> (r: bool)
    ensures
        r == (forall|i: int| 0 <= i < views(segs@).len() ==> valid_seg(#[trigger] views(segs@)[i])),
{
    let ghost sv = views(segs@);
    let mut k: usize = 0;
    while k < segs.len()
        invariant
            0 <= k <= segs.len(),
            sv == views(segs@),
            sv.len() == segs.len(),
            forall|i: int| 0 <= i < k ==> valid_seg(#[trigger] sv[i]),
        decreases segs.len() - k,
    {
        proof {
            assert(sv[k as int] == segs@[k as int]@);
        }
        if !valid_seg_exec(segs[k].as_str()) {
            return false;
        }
        k = k + 1;
    }
    true
}

/// Insert one line before position `p`.
fn insert_line_at(content: &mut Vec<String>, p: usize, line: String)
    requires
        p <= old(content)@.len(),
    ensures
        views(final(content)@) == insert_lines(views(old(content)@), p as int, seq![line@]),
{
    let ghost lv = views(content@);
    let ghost l = line@;
    content.insert(p, line);
    proof {
        lemma_insert_lines_index(lv, p as int, seq![l]);
        assert forall|x: int|
            0 <= x < views(content@).len() implies views(content@)[x] == insert_lines(
            lv,
            p as int,
            seq![l],
        )[x] by {
            assert(views(content@)[x] == content@[x]@);
            if x < p {
                assert(content@[x] == old(content)@[x]);
                assert(lv[x] == old(content)@[x]@);
            } else if x == p {
            } else {
                assert(content@[x] == old(content)@[x - 1]);
                assert(lv[x - 1] == old(content)@[x - 1]@);
            }
        }
        assert(views(content@) =~= insert_lines(lv, p as int, seq![l]));
    }
}

/// Shift every tracked bound at or after `p` down by `delta` lines.
fn propagate(secs: &mut Vec<Section>, p: usize, delta: usize)
    requires
        forall|k: int|
            0 <= k < old(secs)@.len() ==> (#[trigger] old(secs)@[k]).start as int + delta as int
                <= usize::MAX as int && old(secs)@[k].end as int + delta as int <= usize::MAX as int,
    ensures
        sec_views(final(secs)@) == shift_secs(sec_views(old(secs)@), p as int, delta as int),
{
    let ghost sv0 = sec_views(old(secs)@);
    let mut k: usize = 0;
    while k < secs.len()
        invariant
            0 <= k <= secs@.len(),
            secs@.len() == old(secs)@.len(),
            forall|j: int| k <= j < secs@.len() ==> secs@[j] == old(secs)@[j],
            forall|j: int|
                0 <= j < k ==> (#[trigger] secs@[j])@ == shift_secs(
                    sec_views(old(secs)@),
                    p as int,
                    delta as int,
                )[j],
            forall|j: int|
                0 <= j < old(secs)@.len() ==> (#[trigger] old(secs)@[j]).start as int
                    + delta as int <= usize::MAX as int && old(secs)@[j].end as int + delta as int
                    <= usize::MAX as int,
        decreases secs@.len() - k,
    {
        let cur_start = secs[k].start;
        let cur_end = secs[k].end;
        let path = secs[k].path.clone();
        let ns = if cur_start >= p {
            cur_start + delta
        } else {
            cur_start
        };
        let ne = if cur_end >= p {
            cur_end + delta
        } else {
            cur_end
        };
        secs.set(k, Section { path, start: ns, end: ne });
        k = k + 1;
    }
    proof {
        assert forall|j: int|
            0 <= j < sec_views(secs@).len() implies sec_views(secs@)[j] == shift_secs(
            sec_views(old(secs)@),
            p as int,
            delta as int,
        )[j] by {
            assert(sec_views(secs@)[j] == secs@[j]@);
        }
        assert(sec_views(secs@) =~= shift_secs(sec_views(old(secs)@), p as int, delta as int));
    }
}

/// Where a top-level insertion goes.
fn top_pos(content: &Vec<String>) -> (r: usize)
    ensures
        r as int == top_insert_pos(views(content@)),
{
    let n = content.len();
    if n > 0 && content[n - 1].unicode_len() == 0 {
        proof {
            assert(views(content@)[n - 1] == content@[n - 1 as int]@);
        }
        n - 1
    } else {
        proof {
            if n > 0 {
                assert(views(content@)[n - 1] == content@[n - 1 as int]@);
            }
        }
        n
    }
}

/// The position of the first recorded range for `path`, scanning in
/// recording order.
fn find_section(secs: &Vec<Section>, path: &str) -> (r: Option<usize>)
    ensures
        match r {
            Some(k) => 0 <= k < secs@.len() && find_sec(sec_views(secs@), path@) == Some(
                secs@[k as int]@,
            ),
            None => find_sec(sec_views(secs@), path@) == None::<SecV>,
        },
{
    let ghost sv = sec_views(secs@);
    let mut k: usize = 0;
    while k < secs.len()
        invariant
            0 <= k <= secs.len(),
            sv == sec_views(secs@),
            sv.len() == secs.len(),
            find_sec_from(sv, k as int, path@) == find_sec(sv, path@),
        decreases secs.len() - k,
    {
        proof {
            assert(sv[k as int] == secs@[k as int]@);
        }
        if str_eq(secs[k].path.as_str(), path) {
            return Some(k);
        }
        k = k + 1;
    }
    None
}

/// The first entry line for `key` in lines `[lo, hi)`.
fn find_entry(lines: &Vec<String>, lo: usize, hi: usize, key: &str) -> (r: Option<usize>)
    requires
        hi <= lines@.len(),
    ensures
        match r {
            Some(j) => lo <= j < hi && find_entry_from(views(lines@), lo as int, hi as int, key@)
                == Some(j as int),
            None => find_entry_from(views(lines@), lo as int, hi as int, key@) == None::<int>,
        },
{
    let ghost lv = views(lines@);
    let mut j: usize = lo;
    if lo >= hi {
        return None;
    }
    while j < hi
        invariant
            lo <= j <= hi <= lines@.len(),
            lv == views(lines@),
            lv.len() == lines@.len(),
            find_entry_from(lv, j as int, hi as int, key@) == find_entry_from(
                lv,
                lo as int,
                hi as int,
                key@,
            ),
        decreases hi - j,
    {
        proof {
            assert(lv[j as int] == lines@[j as int]@);
        }
        if is_entry_exec(lines[j].as_str(), key) {
            return Some(j);
        }
        j = j + 1;
    }
    None
}

/// The qualifying segments of `name` (all but the last) joined with `.`.
fn join_prefix(parts: &Vec<String>, n: usize) -> (r: String)
    requires
        n <= parts@.len(),
    ensures
        r@ == join_with(views(parts@).take(n as int), '.'),
{
    let ghost pv = views(parts@);
    let mut r = String::new();
    let mut k: usize = 0;
    proof {
        reveal_strlit(".");
        assert("."@ =~= seq!['.']);
        assert(pv.take(0) =~= Seq::<Seq<char>>::empty());
    }
    while k < n
        invariant
            0 <= k <= n <= parts@.len(),
            pv == views(parts@),
            pv.len() == parts@.len(),
            r@ == join_with(pv.take(k as int), '.'),
            "."@ == seq!['.'],
        decreases n - k,
    {
        if k > 0 {
            r.append(".");
        }
        r.append(parts[k].as_str());
        proof {
            assert(pv[k as int] == parts@[k as int]@);
            lemma_join_push(pv.take(k as int), pv[k as int], '.');
            assert(pv.take(k + 1) =~= pv.take(k as int).push(pv[k as int]));
        }
        k = k + 1;
    }
    r
}

/// Look up `key` in the section `path` of one indexed document.
fn lookup_in_doc(lines: &Vec<String>, secs: &Vec<Section>, path: &str, key: &str) -> (r: Option<
    String,
>)
    requires
        doc_wf(views(lines@), sec_views(secs@)),
    ensures
        match r {
            Some(v) => lookup_doc(views(lines@), sec_views(secs@), path@, key@) == Some(v@),
            None => lookup_doc(views(lines@), sec_views(secs@), path@, key@) == None::<Seq<char>>,
        },
{
    let ghost lv = views(lines@);
    let ghost sv = sec_views(secs@);
    match find_section(secs, path) {
        None => None,
        Some(k) => {
            let lo = secs[k].start;
            let hi = secs[k].end;
            proof {
                assert(sec_wf(lv, sv[k as int]));
                assert(secs@[k as int]@ == sv[k as int]);
            }
            match find_entry(lines, lo + 1, hi, key) {
                None => None,
                Some(j) => {
                    let v = entry_value_exec(lines[j].as_str());
                    proof {
                        assert(lv[j as int] == lines@[j as int]@);
                    }
                    Some(v)
                },
            }
        },
    }
}

impl HyprlandConfig {
    /// An empty configuration: no lines, no sections, no sources.
    pub fn new() -> (c: Self)
        ensures
            c@.lines == Seq::<Seq<char>>::empty(),
            c@.secs == Seq::<SecV>::empty(),
            c@.sourced == Seq::<DocV>::empty(),
            c@.source_paths == Seq::<Seq<char>>::empty(),
            wf(c@),
    {
        let c = HyprlandConfig {
            content: Vec::new(),
            sections: Vec::new(),
            sourced: Vec::new(),
            source_paths: Vec::new(),
        };
        proof {
            assert(c@.lines =~= Seq::<Seq<char>>::empty());
            assert(c@.secs =~= Seq::<SecV>::empty());
            assert(c@.sourced =~= Seq::<DocV>::empty());
            assert(c@.source_paths =~= Seq::<Seq<char>>::empty());
        }
        c
    }

    /// Parse `config_str` into this document: split it into lines verbatim,
    /// index the section ranges, and record the paths of `source` entries.
    /// Any previous contents, including registered sourced documents, are
    /// replaced.
    pub fn parse(&mut self, config_str: &str)
        ensures
            final(self)@.lines == split_sep(config_str@, '\n'),
            final(self)@.secs == spec_index(split_sep(config_str@, '\n')),
            final(self)@.sourced == Seq::<DocV>::empty(),
            final(self)@.source_paths == spec_sources(split_sep(config_str@, '\n')),
            forall|k: int|
                0 <= k < final(self)@.lines.len() ==> line_ok(#[trigger] final(self)@.lines[k]),
            wf(final(self)@),
    {
        self.content = split_on(config_str, '\n');
        self.sections = build_index(&self.content);
        self.source_paths = collect_sources(&self.content);
        self.sourced = Vec::new();
        proof {
            lemma_index_wf(views(self.content@));
            lemma_split_basic(config_str@, '\n');
            assert(doc_views(self.sourced@) =~= Seq::<DocV>::empty());
        }
    }

    /// Insert or replace one entry. The path is walked segment by segment;
    /// missing sections are synthesized at the end of the enclosing scope,
    /// and within the deepest scope the first existing line for the key is
    /// overwritten in place, or a new entry line is inserted just before
    /// the closing brace. Every other tracked range is shifted past each
    /// insertion. A path with an unusable segment is rejected and the
    /// document is left untouched.
    pub fn add_entry(&mut self, category_path: &str, entry: &str) -> (r: Result<(), ConfigError>)
        requires
            wf(old(self)@),
        ensures
            final(self)@.lines == spec_add_entry(
                old(self)@.lines,
                old(self)@.secs,
                category_path@,
                entry@,
            ).0,
            final(self)@.secs == spec_add_entry(
                old(self)@.lines,
                old(self)@.secs,
                category_path@,
                entry@,
            ).1,
            final(self)@.sourced == old(self)@.sourced,
            final(self)@.source_paths == old(self)@.source_paths,
            r is Ok <==> valid_path(category_path@),
            !valid_path(category_path@) ==> r == Err::<(), ConfigError>(ConfigError::InvalidPath)
                && final(self)@ == old(self)@,
            wf(final(self)@),
    {
        let ghost l0 = self@.lines;
        let ghost s0 = self@.secs;
        let segs = split_on(category_path, '.');
        proof {
            lemma_split_basic(category_path@, '.');
        }
        if !check_segs(&segs) {
            proof {
                assert(!valid_path(category_path@));
            }
            return Err(ConfigError::InvalidPath);
        }
        let ghost gsegs = split_sep(category_path@, '.');
        let ghost st0 = init_state(l0, s0);
        let n = segs.len();
        let mut prefix = String::new();
        let mut lo1: usize = 0;
        let mut hi: usize = top_pos(&self.content);
        let mut done: bool = false;
        let mut i: usize = 0;
        proof {
            assert(valid_path(category_path@));
            assert(st_inv(st0));
            assert(gsegs.take(0) =~= Seq::<Seq<char>>::empty());
            reveal_strlit(".");
            assert("."@ =~= seq!['.']);
            assert(n >= 1) by {
                lemma_split_basic(category_path@, '.');
            }
        }
        while i < n
            invariant
                0 <= i <= n,
                n == gsegs.len(),
                n == segs@.len(),
                views(segs@) == gsegs,
                forall|k: int| 0 <= k < gsegs.len() ==> valid_seg(#[trigger] gsegs[k]),
                "."@ == seq!['.'],
                prefix@ == join_with(gsegs.take(i as int), '.'),
                self@.sourced == old(self)@.sourced,
                self@.source_paths == old(self)@.source_paths,
                st_inv(
                    UpState {
                        lines: self@.lines,
                        secs: self@.secs,
                        lo: lo1 as int - 1,
                        hi: hi as int,
                        done,
                    },
                ),
                apply_segs(
                    UpState {
                        lines: self@.lines,
                        secs: self@.secs,
                        lo: lo1 as int - 1,
                        hi: hi as int,
                        done,
                    },
                    gsegs,
                    i as int,
                    entry@,
                ) == apply_segs(st0, gsegs, 0, entry@),
            decreases n - i,
        {
            let ghost cur = UpState {
                lines: self@.lines,
                secs: self@.secs,
                lo: lo1 as int - 1,
                hi: hi as int,
                done,
            };
            if i > 0 {
                prefix.append(".");
            }
            prefix.append(segs[i].as_str());
            proof {
                assert(views(segs@)[i as int] == segs@[i as int]@);
                lemma_join_push(gsegs.take(i as int), gsegs[i as int], '.');
                assert(gsegs.take(i + 1) =~= gsegs.take(i as int).push(gsegs[i as int]));
                assert(prefix@ == prefix_of(gsegs, i as int));
            }
            let is_last = i == n - 1;
            let ghost stepped = apply_seg(
                cur,
                prefix_of(gsegs, i as int),
                gsegs[i as int],
                i as int,
                i as int == gsegs.len() - 1,
                entry@,
            );
            if !done {
                match find_section(&self.sections, prefix.as_str()) {
                    Some(k) => {
                        let s_start = self.sections[k].start;
                        let s_end = self.sections[k].end;
                        proof {
                            let sv = sec_views(self.sections@);
                            assert(self.sections@[k as int]@ == sv[k as int]);
                            assert(sec_wf(cur.lines, sv[k as int]));
                        }
                        lo1 = s_start + 1;
                        hi = s_end;
                        proof {
                            assert(UpState {
                                lines: self@.lines,
                                secs: self@.secs,
                                lo: lo1 as int - 1,
                                hi: hi as int,
                                done,
                            } =~= stepped);
                        }
                    },
                    None => {
                        let depth = i;
                        let head = make_head(depth, segs[i].as_str());
                        let close = make_close(depth);
                        let p = hi;
                        let ghost block = seg_block(i as int, gsegs[i as int], is_last, entry@);
                        if is_last {
                            let el = make_entry_line(depth + 1, entry);
                            let ghost hv = head@;
                            let ghost ev = el@;
                            let ghost cv = close@;
                            insert_line_at(&mut self.content, p, head);
                            let nl1 = self.content.len();
                            proof {
                                lemma_insert_lines_index(cur.lines, p as int, seq![hv]);
                                assert(nl1 as int == cur.lines.len() + 1);
                                assert(p < nl1);
                            }
                            insert_line_at(&mut self.content, p + 1, el);
                            let nl2 = self.content.len();
                            proof {
                                lemma_insert_lines_concat(cur.lines, p as int, seq![hv], seq![ev]);
                                lemma_insert_lines_index(cur.lines, p as int, seq![hv] + seq![ev]);
                                assert(nl2 as int == cur.lines.len() + 2);
                                assert(p + 1 < nl2);
                            }
                            insert_line_at(&mut self.content, p + 2, close);
                            proof {
                                lemma_insert_lines_concat(cur.lines, p as int, seq![hv], seq![ev]);
                                assert(seq![hv] + seq![ev] =~= seq![hv, ev]);
                                lemma_insert_lines_concat(
                                    cur.lines,
                                    p as int,
                                    seq![hv, ev],
                                    seq![cv],
                                );
                                assert(seq![hv, ev] + seq![cv] =~= seq![hv, ev, cv]);
                                assert(seq![hv, ev, cv] =~= block);
                                assert(views(self.content@) == insert_lines(
                                    cur.lines,
                                    p as int,
                                    block,
                                ));
                            }
                        } else {
                            let ghost hv = head@;
                            let ghost cv = close@;
                            insert_line_at(&mut self.content, p, head);
                            let nl1 = self.content.len();
                            proof {
                                lemma_insert_lines_index(cur.lines, p as int, seq![hv]);
                                assert(nl1 as int == cur.lines.len() + 1);
                                assert(p < nl1);
                            }
                            insert_line_at(&mut self.content, p + 1, close);
                            proof {
                                lemma_insert_lines_concat(cur.lines, p as int, seq![hv], seq![cv]);
                                assert(seq![hv] + seq![cv] =~= seq![hv, cv]);
                                assert(seq![hv, cv] =~= block);
                                assert(views(self.content@) == insert_lines(
                                    cur.lines,
                                    p as int,
                                    block,
                                ));
                            }
                        }
                        let nlen = self.content.len();
                        proof {
                            assert(nlen as int == cur.lines.len() + block.len());
                            assert forall|m: int| 0 <= m < self.sections@.len() implies sec_wf(
                                cur.lines,
                                (#[trigger] self.sections@[m])@,
                            ) by {
                                assert(sec_views(self.sections@)[m] == self.sections@[m]@);
                                assert(sec_wf(cur.lines, sec_views(self.sections@)[m]));
                            }
                        }
                        let d: usize = if is_last {
                            3
                        } else {
                            2
                        };
                        propagate(&mut self.sections, p, d);
                        self.sections.push(
                            Section { path: prefix.clone(), start: p, end: p + d - 1 },
                        );
                        lo1 = p + 1;
                        hi = p + d - 1;
                        done = is_last;
                        proof {
                            let ghost pushed = SecV {
                                path: prefix_of(gsegs, i as int),
                                start: p as int,
                                end: p as int + block.len() - 1,
                            };
                            assert(sec_views(self.sections@) =~= shift_secs(
                                cur.secs,
                                p as int,
                                block.len() as int,
                            ).push(pushed));
                            assert(UpState {
                                lines: self@.lines,
                                secs: self@.secs,
                                lo: lo1 as int - 1,
                                hi: hi as int,
                                done,
                            } =~= stepped);
                        }
                    },
                }
            } else {
                proof {
                    assert(stepped == cur);
                }
            }
            proof {
                lemma_apply_seg_inv(
                    cur,
                    prefix_of(gsegs, i as int),
                    gsegs[i as int],
                    i as int,
                    i as int == gsegs.len() - 1,
                    entry@,
                );
                assert(apply_segs(cur, gsegs, i as int, entry@) == apply_segs(
                    stepped,
                    gsegs,
                    i + 1,
                    entry@,
                ));
            }
            i = i + 1;
        }
        let ghost walked = apply_segs(st0, gsegs, 0, entry@);
        proof {
            let cur = UpState {
                lines: self@.lines,
                secs: self@.secs,
                lo: lo1 as int - 1,
                hi: hi as int,
                done,
            };
            assert(apply_segs(cur, gsegs, n as int, entry@) == cur);
            assert(cur == walked);
        }
        if !done {
            let key = key_of_exec(entry);
            match find_entry(&self.content, lo1, hi, key.as_str()) {
                Some(j) => {
                    let el = make_entry_line(n, entry);
                    let ghost lv = views(self.content@);
                    let ghost elv = el@;
                    self.content.set(j, el);
                    proof {
                        assert forall|x: int|
                            0 <= x < views(self.content@).len() implies views(self.content@)[x]
                            == lv.update(j as int, elv)[x] by {
                            assert(views(self.content@)[x] == self.content@[x]@);
                        }
                        assert(views(self.content@) =~= lv.update(j as int, elv));
                    }
                },
                None => {
                    let el = make_entry_line(n, entry);
                    insert_line_at(&mut self.content, hi, el);
                    let nlen = self.content.len();
                    proof {
                        assert(nlen as int == walked.lines.len() + 1);
                        assert forall|m: int| 0 <= m < self.sections@.len() implies sec_wf(
                            walked.lines,
                            (#[trigger] self.sections@[m])@,
                        ) by {
                            assert(sec_views(self.sections@)[m] == self.sections@[m]@);
                            assert(sec_wf(walked.lines, sec_views(self.sections@)[m]));
                        }
                        assert(seq![el@] =~= seq![entry_line(n as int, entry@)]);
                    }
                    propagate(&mut self.sections, hi, 1);
                },
            }
        }
        proof {
            lemma_apply_upsert_wf(walked, n as int, entry@);
            assert((self@.lines, self@.secs) =~= apply_upsert(walked, n as int, entry@));
            assert(self@.lines == spec_add_entry(l0, s0, category_path@, entry@).0);
            assert(self@.secs == spec_add_entry(l0, s0, category_path@, entry@).1);
        }
        Ok(())
    }

    /// Append one top-level line at the end of the document, before a
    /// trailing empty line, shifting the tracked ranges past the insertion.
    fn append_top_line(&mut self, line: String)
        requires
            wf(old(self)@),
        ensures
            final(self)@.lines == insert_lines(
                old(self)@.lines,
                top_insert_pos(old(self)@.lines),
                seq![line@],
            ),
            final(self)@.secs == shift_secs(
                old(self)@.secs,
                top_insert_pos(old(self)@.lines),
                1,
            ),
            final(self)@.sourced == old(self)@.sourced,
            final(self)@.source_paths == old(self)@.source_paths,
            wf(final(self)@),
    {
        let ghost l0 = self@.lines;
        let ghost s0 = self@.secs;
        let p = top_pos(&self.content);
        insert_line_at(&mut self.content, p, line);
        let nlen = self.content.len();
        proof {
            lemma_insert_lines_index(l0, p as int, seq![line@]);
            assert(nlen as int == l0.len() + 1);
            assert forall|m: int| 0 <= m < self.sections@.len() implies sec_wf(
                l0,
                (#[trigger] self.sections@[m])@,
            ) by {
                assert(sec_views(self.sections@)[m] == self.sections@[m]@);
                assert(sec_wf(l0, sec_views(self.sections@)[m]));
            }
        }
        propagate(&mut self.sections, p, 1);
        proof {
            crate::model::lemma_insert_shift_wf(l0, s0, p as int, seq![line@]);
            assert(self@.lines == insert_lines(l0, p as int, seq![line@]));
            assert(self@.secs == shift_secs(s0, p as int, 1));
            assert(shift_secs(s0, p as int, seq![line@].len() as int) == shift_secs(
                s0,
                p as int,
                1,
            ));
            assert(doc_wf(self@.lines, self@.secs));
            assert(self@.sourced == old(self)@.sourced);
            assert forall|k: int| 0 <= k < self@.sourced.len() implies doc_wf(
                (#[trigger] self@.sourced[k]).lines,
                self@.sourced[k].secs,
            ) by {
                assert(self@.sourced[k] == old(self)@.sourced[k]);
            }
        }
    }

    /// Append an `exec` entry at the end of the document. Repeated
    /// commands are kept: `exec` lines accumulate, they are not upserted.
    pub fn add_exec(&mut self, command: String)
        requires
            wf(old(self)@),
        ensures
            final(self)@.lines == insert_lines(
                old(self)@.lines,
                top_insert_pos(old(self)@.lines),
                seq!["exec = "@ + command@],
            ),
            final(self)@.secs == shift_secs(
                old(self)@.secs,
                top_insert_pos(old(self)@.lines),
                1,
            ),
            final(self)@.sourced == old(self)@.sourced,
            final(self)@.source_paths == old(self)@.source_paths,
            wf(final(self)@),
    {
        let mut line = String::from_str("exec = ");
        line.append(command.as_str());
        self.append_top_line(line);
    }

    /// Append a `bind` entry at the end of the document. Repeated bindings
    /// are kept: `bind` lines accumulate, they are not upserted.
    pub fn add_bind(&mut self, binding: String)
        requires
            wf(old(self)@),
        ensures
            final(self)@.lines == insert_lines(
                old(self)@.lines,
                top_insert_pos(old(self)@.lines),
                seq!["bind = "@ + binding@],
            ),
            final(self)@.secs == shift_secs(
                old(self)@.secs,
                top_insert_pos(old(self)@.lines),
                1,
            ),
            final(self)@.sourced == old(self)@.sourced,
            final(self)@.source_paths == old(self)@.source_paths,
            wf(final(self)@),
    {
        let mut line = String::from_str("bind = ");
        line.append(binding.as_str());
        self.append_top_line(line);
    }

    /// Upsert `key = value` into the `general` section, creating it when it
    /// is missing.
    pub fn insert_general(&mut self, key: String, value: String)
        requires
            wf(old(self)@),
        ensures
            final(self)@.lines == spec_add_entry(
                old(self)@.lines,
                old(self)@.secs,
                "general"@,
                key@ + " = "@ + value@,
            ).0,
            final(self)@.secs == spec_add_entry(
                old(self)@.lines,
                old(self)@.secs,
                "general"@,
                key@ + " = "@ + value@,
            ).1,
            final(self)@.sourced == old(self)@.sourced,
            final(self)@.source_paths == old(self)@.source_paths,
            wf(final(self)@),
    {
        let mut entry = key;
        entry.append(" = ");
        entry.append(value.as_str());
        let _ = self.add_entry("general", entry.as_str());
    }

    /// Register the text of a document referenced by a `source` entry: it
    /// is parsed and indexed, and later consulted by `get` as a read-only
    /// fallback, in registration order.
    pub fn add_source(&mut self, path: &str, text: &str)
        ensures
            final(self)@.lines == old(self)@.lines,
            final(self)@.secs == old(self)@.secs,
            final(self)@.source_paths == old(self)@.source_paths,
            final(self)@.sourced == old(self)@.sourced.push(
                DocV {
                    path: path@,
                    lines: split_sep(text@, '\n'),
                    secs: spec_index(split_sep(text@, '\n')),
                },
            ),
            wf(old(self)@) ==> wf(final(self)@),
    {
        let content = split_on(text, '\n');
        let sections = build_index(&content);
        let doc = SourcedDoc { path: String::from_str(path), content, sections };
        proof {
            lemma_index_wf(split_sep(text@, '\n'));
        }
        let ghost old_sourced = self.sourced@;
        self.sourced.push(doc);
        proof {
            let nd = DocV {
                path: path@,
                lines: split_sep(text@, '\n'),
                secs: spec_index(split_sep(text@, '\n')),
            };
            assert(doc_views(self.sourced@) =~= doc_views(old_sourced).push(nd));
            if wf(old(self)@) {
                assert forall|k: int| 0 <= k < self@.sourced.len() implies doc_wf(
                    (#[trigger] self@.sourced[k]).lines,
                    self@.sourced[k].secs,
                ) by {
                    if k < self@.sourced.len() - 1 {
                        assert(self@.sourced[k] == old(self)@.sourced[k]);
                    } else {
                        assert(self@.sourced[k] == nd);
                    }
                }
            }
        }
    }

    /// The current value of `name` under `category`: `name` may carry
    /// subsection qualifiers (`touchpad.natural_scroll`). The primary
    /// document is consulted first, then each sourced document in
    /// registration order; an entry that is nowhere present yields the
    /// empty string.
    pub fn get(&self, category: &str, name: &str) -> (r: String)
        requires
            wf(self@),
        ensures
            r@ == spec_get(self@, category@, name@),
    {
        let name_segs = split_on(name, '.');
        proof {
            lemma_split_basic(name@, '.');
        }
        let key = name_segs[name_segs.len() - 1].as_str();
        let mut path = String::from_str(category);
        if name_segs.len() > 1 {
            proof {
                reveal_strlit(".");
                assert("."@ =~= seq!['.']);
            }
            path.append(".");
            let q = join_prefix(&name_segs, name_segs.len() - 1);
            path.append(q.as_str());
            proof {
                assert(views(name_segs@).take(name_segs@.len() - 1) =~= split_sep(
                    name@,
                    '.',
                ).drop_last());
            }
        }
        proof {
            assert(path@ == get_path(category@, name@));
            assert(views(name_segs@)[name_segs@.len() - 1] == name_segs@[name_segs@.len() - 1]@);
            assert(key@ == get_key(name@));
        }
        match lookup_in_doc(&self.content, &self.sections, path.as_str(), key) {
            Some(v) => v,
            None => {
                let ghost dv = doc_views(self.sourced@);
                let mut si: usize = 0;
                while si < self.sourced.len()
                    invariant
                        0 <= si <= self.sourced.len(),
                        wf(self@),
                        dv == doc_views(self.sourced@),
                        dv.len() == self.sourced.len(),
                        path@ == get_path(category@, name@),
                        key@ == get_key(name@),
                        lookup_doc(self@.lines, self@.secs, path@, key@) == None::<Seq<char>>,
                        sourced_lookup(dv, si as int, path@, key@) == sourced_lookup(
                            dv,
                            0,
                            path@,
                            key@,
                        ),
                    decreases self.sourced.len() - si,
                {
                    proof {
                        assert(dv[si as int] == self.sourced@[si as int]@);
                    }
                    let d = &self.sourced[si];
                    proof {
                        assert(self@.sourced[si as int] == d@);
                        assert(doc_wf(d@.lines, d@.secs));
                    }
                    match lookup_in_doc(&d.content, &d.sections, path.as_str(), key) {
                        Some(v) => {
                            return v;
                        },
                        None => {
                        },
                    }
                    si = si + 1;
                }
                String::new()
            },
        }
    }

    /// The document as text: its lines joined with newlines, reproducing
    /// the parsed text exactly when nothing was edited.
    pub fn to_string(&self) -> (r: String)
        ensures
            r@ == join_with(self@.lines, '\n'),
    {
        let ghost lv = views(self.content@);
        let mut r = String::new();
        let mut k: usize = 0;
        proof {
            reveal_strlit("\n");
            assert("\n"@ =~= seq!['\n']);
            assert(lv.take(0) =~= Seq::<Seq<char>>::empty());
        }
        while k < self.content.len()
            invariant
                0 <= k <= self.content.len(),
                lv == views(self.content@),
                lv.len() == self.content.len(),
                r@ == join_with(lv.take(k as int), '\n'),
                "\n"@ == seq!['\n'],
            decreases self.content.len() - k,
        {
            if k > 0 {
                r.append("\n");
            }
            r.append(self.content[k].as_str());
            proof {
                assert(lv[k as int] == self.content@[k as int]@);
                lemma_join_push(lv.take(k as int), lv[k as int], '\n');
                assert(lv.take(k + 1) =~= lv.take(k as int).push(lv[k as int]));
            }
            k = k + 1;
        }
        proof {
            assert(lv.take(self.content.len() as int) =~= lv);
        }
        r
    }
}

/// Parse `config_str` into a fresh configuration document.
pub fn parse_config(config_str: &str) -> (c: HyprlandConfig)
    ensures
        c@.lines == split_sep(config_str@, '\n'),
        c@.secs == spec_index(split_sep(config_str@, '\n')),
        c@.sourced == Seq::<DocV>::empty(),
        c@.source_paths == spec_sources(split_sep(config_str@, '\n')),
        wf(c@),
{
    let mut c = HyprlandConfig::new();
    c.parse(config_str);
    c
}

} // verus!
