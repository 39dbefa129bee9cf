//! The mathematical model of a configuration document: its lines, the
//! predicates classifying them, the section index built from them, and the
//! lookup functions that the executable code is proved against.

use vstd::prelude::*;

use crate::text::find_char;
use crate::text::is_ws;
use crate::text::join_with;
use crate::text::split_sep;
use crate::text::trim;
use crate::text::trim_back;
use crate::text::trim_front;

verus! {

/// A tracked section range: the path of the section and the line indices of
/// its opening `{` line and its closing `}` line.
#[verifier::ext_equal]
pub ghost struct SecV {
    pub path: Seq<char>,
    pub start: int,
    pub end: int,
}

/// A registered sourced document: its path, its lines and its own index.
#[verifier::ext_equal]
pub ghost struct DocV {
    pub path: Seq<char>,
    pub lines: Seq<Seq<char>>,
    pub secs: Seq<SecV>,
}

/// The whole configuration: the primary document with its index, the
/// sourced documents, and the paths named by `source` entries.
#[verifier::ext_equal]
pub ghost struct ConfigV {
    pub lines: Seq<Seq<char>>,
    pub secs: Seq<SecV>,
    pub sourced: Seq<DocV>,
    pub source_paths: Seq<Seq<char>>,
}

/// A line free of embedded newlines, as produced by splitting text.
pub open spec fn line_ok(l: Seq<char>) -> bool {
    forall|j: int| 0 <= j < l.len() ==> l[j] != '\n'
}

/// A line that opens a section: after trimming it is non-empty, is not a
/// comment, and ends with `{`.
pub open spec fn opens_section(l: Seq<char>) -> bool {
    let t = trim(l);
    t.len() > 0 && t[0] != '#' && t.last() == '{'
}

/// A line that closes a section: it trims to exactly `}`.
pub open spec fn closes_section(l: Seq<char>) -> bool {
    trim(l) == seq!['}']
}

/// `t` with every trailing `{` removed.
pub open spec fn drop_braces(t: Seq<char>) -> Seq<char>
    decreases t.len(),
{
    if t.len() > 0 && t.last() == '{' {
        drop_braces(t.drop_last())
    } else {
        t
    }
}

/// Where the trailing braces of `s` begin: `drop_braces` keeps exactly the
/// prefix before position `e`.
pub proof fn lemma_drop_braces_at(s: Seq<char>, e: int)
    requires
        0 <= e <= s.len(),
        forall|j: int| e <= j < s.len() ==> s[j] == '{',
        e == 0 || s[e - 1] != '{',
    ensures
        drop_braces(s) == s.subrange(0, e),
    decreases s.len(),
{
    if e == s.len() {
        if s.len() > 0 {
            assert(s.last() != '{');
        }
        assert(s.subrange(0, e) =~= s);
    } else {
        assert(s.last() == '{');
        lemma_drop_braces_at(s.drop_last(), e);
        assert(s.drop_last().subrange(0, e) =~= s.subrange(0, e));
    }
}

/// The name a section-opening line declares: the line trimmed, with the
/// trailing braces and any whitespace before them removed.
pub open spec fn sec_name(l: Seq<char>) -> Seq<char> {
    trim_back(drop_braces(trim(l)))
}

/// Section paths join nested names with `.`.
pub open spec fn path_join(names: Seq<Seq<char>>) -> Seq<char> {
    join_with(names, '.')
}

/// The names on an indexing stack, bottom first.
pub open spec fn stack_names(st: Seq<(Seq<char>, int)>) -> Seq<Seq<char>> {
    st.map_values(|e: (Seq<char>, int)| e.0)
}

/// One pass of the section indexer from line `i`, carrying the stack of
/// currently open sections and the ranges recorded so far.
pub open spec fn index_rec(
    lines: Seq<Seq<char>>,
    i: int,
    stack: Seq<(Seq<char>, int)>,
    acc: Seq<SecV>,
) -> Seq<SecV>
    decreases lines.len() - i,
{
    if i < 0 || i >= lines.len() {
        acc
    } else {
        let l = lines[i];
        if opens_section(l) {
            index_rec(lines, i + 1, stack.push((sec_name(l), i)), acc)
        } else if closes_section(l) && stack.len() > 0 {
            let top = stack.last();
            index_rec(
                lines,
                i + 1,
                stack.drop_last(),
                acc.push(SecV { path: path_join(stack_names(stack)), start: top.1, end: i }),
            )
        } else {
            index_rec(lines, i + 1, stack, acc)
        }
    }
}

/// The section index of a document: every section path mapped to the line
/// range it occupies, recorded in the order the sections close.
pub open spec fn spec_index(lines: Seq<Seq<char>>) -> Seq<SecV> {
    index_rec(lines, 0, Seq::empty(), Seq::empty())
}

/// A recorded range addresses real brace lines of the document.
pub open spec fn sec_wf(lines: Seq<Seq<char>>, s: SecV) -> bool {
    &&& 0 <= s.start < s.end < lines.len()
    &&& opens_section(lines[s.start])
    &&& closes_section(lines[s.end])
}

/// Every tracked range of the document is valid.
pub open spec fn doc_wf(lines: Seq<Seq<char>>, secs: Seq<SecV>) -> bool {
    forall|k: int| 0 <= k < secs.len() ==> sec_wf(lines, #[trigger] secs[k])
}

/// The whole configuration is well formed: the primary index and every
/// sourced index address real brace lines.
pub open spec fn wf(c: ConfigV) -> bool {
    &&& doc_wf(c.lines, c.secs)
    &&& forall|k: int| 0 <= k < c.sourced.len() ==> doc_wf(
        (#[trigger] c.sourced[k]).lines,
        c.sourced[k].secs,
    )
}

proof fn lemma_index_rec_wf(
    lines: Seq<Seq<char>>,
    i: int,
    stack: Seq<(Seq<char>, int)>,
    acc: Seq<SecV>,
)
    requires
        0 <= i <= lines.len(),
        forall|k: int|
            0 <= k < stack.len() ==> 0 <= (#[trigger] stack[k]).1 < i && opens_section(
                lines[stack[k].1],
            ),
        forall|k: int| 0 <= k < acc.len() ==> sec_wf(lines, #[trigger] acc[k]),
    ensures
        forall|k: int|
            0 <= k < index_rec(lines, i, stack, acc).len() ==> sec_wf(
                lines,
                #[trigger] index_rec(lines, i, stack, acc)[k],
            ),
    decreases lines.len() - i,
{
    if i < lines.len() {
        let l = lines[i];
        if opens_section(l) {
            let stack2 = stack.push((sec_name(l), i));
            assert(forall|k: int|
                0 <= k < stack2.len() ==> 0 <= (#[trigger] stack2[k]).1 < i + 1 && opens_section(
                    lines[stack2[k].1],
                ));
            lemma_index_rec_wf(lines, i + 1, stack2, acc);
            assert(index_rec(lines, i, stack, acc) == index_rec(lines, i + 1, stack2, acc));
        } else if closes_section(l) && stack.len() > 0 {
            let top = stack.last();
            assert(stack[stack.len() - 1] == top);
            let rec = SecV { path: path_join(stack_names(stack)), start: top.1, end: i };
            assert(sec_wf(lines, rec));
            let acc2 = acc.push(rec);
            lemma_index_rec_wf(lines, i + 1, stack.drop_last(), acc2);
            assert(index_rec(lines, i, stack, acc) == index_rec(
                lines,
                i + 1,
                stack.drop_last(),
                acc2,
            ));
        } else {
            lemma_index_rec_wf(lines, i + 1, stack, acc);
            assert(index_rec(lines, i, stack, acc) == index_rec(lines, i + 1, stack, acc));
        }
    }
}

/// The index the single pass produces only records valid ranges.
pub proof fn lemma_index_wf(lines: Seq<Seq<char>>)
    ensures
        doc_wf(lines, spec_index(lines)),
{
    lemma_index_rec_wf(lines, 0, Seq::empty(), Seq::empty());
}

/// `p` is a prefix of `s`.
pub open spec fn starts_with(s: Seq<char>, p: Seq<char>) -> bool {
    p.len() <= s.len() && s.take(p.len() as int) == p
}

/// What may follow a key on its line: only whitespace, or whitespace and
/// then `=`.
pub open spec fn after_key_ok(r: Seq<char>) -> bool {
    trim_front(r).len() == 0 || trim_front(r)[0] == '='
}

/// The line carries an entry for `key`: its trimmed text starts with `key`,
/// followed by optional whitespace and `=` (or nothing, for a bare key).
pub open spec fn line_matches(l: Seq<char>, key: Seq<char>) -> bool {
    let t = trim(l);
    starts_with(t, key) && after_key_ok(t.skip(key.len() as int))
}

/// The value an entry line carries: everything after the first `=`, trimmed;
/// empty for a bare key.
pub open spec fn entry_value(l: Seq<char>) -> Seq<char> {
    let t = trim(l);
    let p = find_char(t, '=');
    if p < t.len() {
        trim(t.skip(p + 1))
    } else {
        Seq::empty()
    }
}

/// The key of an entry string: the text before the first `=`, trimmed; the
/// whole trimmed string when there is no `=`.
pub open spec fn key_of(e: Seq<char>) -> Seq<char> {
    let t = trim(e);
    let p = find_char(t, '=');
    if p < t.len() {
        trim_back(t.take(p))
    } else {
        t
    }
}

/// The line is an entry for `key`: it matches the key and is not itself a
/// brace line. Section structure is never read, nor overwritten, as an
/// entry.
pub open spec fn is_entry(l: Seq<char>, key: Seq<char>) -> bool {
    line_matches(l, key) && !opens_section(l) && !closes_section(l)
}

/// The key that marks an include line.
pub open spec fn source_key() -> Seq<char> {
    seq!['s', 'o', 'u', 'r', 'c', 'e']
}

/// The paths named by `source` entries from line `i` on, in order.
pub open spec fn sources_rec(lines: Seq<Seq<char>>, i: int) -> Seq<Seq<char>>
    decreases lines.len() - i,
{
    if i < 0 || i >= lines.len() {
        Seq::empty()
    } else {
        let rest = sources_rec(lines, i + 1);
        if is_entry(lines[i], source_key()) {
            seq![entry_value(lines[i])] + rest
        } else {
            rest
        }
    }
}

/// All paths named by `source` entries of the document, in order.
pub open spec fn spec_sources(lines: Seq<Seq<char>>) -> Seq<Seq<char>> {
    sources_rec(lines, 0)
}

/// The first recorded range for `path` at or after position `i`.
pub open spec fn find_sec_from(secs: Seq<SecV>, i: int, path: Seq<char>) -> Option<SecV>
    decreases secs.len() - i,
{
    if i < 0 || i >= secs.len() {
        None
    } else if secs[i].path == path {
        Some(secs[i])
    } else {
        find_sec_from(secs, i + 1, path)
    }
}

/// The first recorded range for `path`.
pub open spec fn find_sec(secs: Seq<SecV>, path: Seq<char>) -> Option<SecV> {
    find_sec_from(secs, 0, path)
}

/// The first line in `[i, end)` that carries an entry for `key`.
pub open spec fn find_entry_from(
    lines: Seq<Seq<char>>,
    i: int,
    end: int,
    key: Seq<char>,
) -> Option<int>
    decreases end - i,
{
    if i < 0 || i >= end || i >= lines.len() {
        None
    } else if is_entry(lines[i], key) {
        Some(i)
    } else {
        find_entry_from(lines, i + 1, end, key)
    }
}

/// Look up `key` inside the section `path` of one document: resolve the
/// range, scan its interior, and return the value of the first entry line.
pub open spec fn lookup_doc(
    lines: Seq<Seq<char>>,
    secs: Seq<SecV>,
    path: Seq<char>,
    key: Seq<char>,
) -> Option<Seq<char>> {
    match find_sec(secs, path) {
        None => None,
        Some(sec) => match find_entry_from(lines, sec.start + 1, sec.end, key) {
            None => None,
            Some(j) => Some(entry_value(lines[j])),
        },
    }
}

/// The section path a `get` query addresses: the category, extended by the
/// qualifying segments of `name` (all but its last).
pub open spec fn get_path(category: Seq<char>, name: Seq<char>) -> Seq<char> {
    let segs = split_sep(name, '.');
    if segs.len() == 1 {
        category
    } else {
        category + seq!['.'] + path_join(segs.drop_last())
    }
}

/// The key a `get` query scans for: the last segment of `name`.
pub open spec fn get_key(name: Seq<char>) -> Seq<char> {
    split_sep(name, '.').last()
}

/// Fall back through the sourced documents in registration order; empty when
/// no document holds the entry.
pub open spec fn sourced_lookup(docs: Seq<DocV>, i: int, path: Seq<char>, key: Seq<char>) -> Seq<
    char,
>
    decreases docs.len() - i,
{
    if i < 0 || i >= docs.len() {
        Seq::empty()
    } else {
        match lookup_doc(docs[i].lines, docs[i].secs, path, key) {
            Some(v) => v,
            None => sourced_lookup(docs, i + 1, path, key),
        }
    }
}

/// What `get` returns: the value from the primary document, else the first
/// hit among the sourced documents, else the empty string.
pub open spec fn spec_get(c: ConfigV, category: Seq<char>, name: Seq<char>) -> Seq<char> {
    let p = get_path(category, name);
    let k = get_key(name);
    match lookup_doc(c.lines, c.secs, p, k) {
        Some(v) => v,
        None => sourced_lookup(c.sourced, 0, p, k),
    }
}

/// Four spaces for every level of nesting.
pub open spec fn indent_sp(depth: int) -> Seq<char>
    decreases depth,
{
    if depth <= 0 {
        Seq::empty()
    } else {
        indent_sp(depth - 1) + seq![' ', ' ', ' ', ' ']
    }
}

/// One tracked range with every bound at or after the insertion point moved
/// down by `delta`.
pub open spec fn shift_sec(s: SecV, p: int, delta: int) -> SecV {
    SecV {
        path: s.path,
        start: if s.start >= p {
            s.start + delta
        } else {
            s.start
        },
        end: if s.end >= p {
            s.end + delta
        } else {
            s.end
        },
    }
}

/// Every tracked bound at or after the insertion point moves down by
/// `delta` lines; bounds before it stay.
pub open spec fn shift_secs(secs: Seq<SecV>, p: int, delta: int) -> Seq<SecV> {
    secs.map_values(|s: SecV| shift_sec(s, p, delta))
}

/// `block` inserted before the line currently at `p`.
pub open spec fn insert_lines(lines: Seq<Seq<char>>, p: int, block: Seq<Seq<char>>) -> Seq<
    Seq<char>,
> {
    lines.take(p) + block + lines.skip(p)
}

/// Where a top-level insertion goes: the end of the document, staying
/// before a final empty line so a trailing newline is preserved.
pub open spec fn top_insert_pos(lines: Seq<Seq<char>>) -> int {
    if lines.len() > 0 && lines.last().len() == 0 {
        lines.len() - 1
    } else {
        lines.len() as int
    }
}

/// The line written for an entry at the given nesting depth.
pub open spec fn entry_line(depth: int, entry: Seq<char>) -> Seq<char> {
    indent_sp(depth) + trim(entry)
}

/// The opening line of a synthesized section block.
pub open spec fn head_line(depth: int, seg: Seq<char>) -> Seq<char> {
    indent_sp(depth) + seg + seq![' ', '{']
}

/// The closing line of a synthesized section block.
pub open spec fn close_line(depth: int) -> Seq<char> {
    indent_sp(depth) + seq!['}']
}

/// The block synthesized for a missing path segment; the entry itself is
/// embedded when the segment is the last one.
pub open spec fn seg_block(depth: int, seg: Seq<char>, is_last: bool, entry: Seq<char>) -> Seq<
    Seq<char>,
> {
    if is_last {
        seq![head_line(depth, seg), entry_line(depth + 1, entry), close_line(depth)]
    } else {
        seq![head_line(depth, seg), close_line(depth)]
    }
}

/// The state of the upsert walk: the document so far, the scope the walk
/// has reached (`lo`/`hi` are its brace lines; `lo == -1` at top level with
/// `hi` the top-level insertion point), and whether the entry has already
/// been embedded in a synthesized block.
#[verifier::ext_equal]
pub ghost struct UpState {
    pub lines: Seq<Seq<char>>,
    pub secs: Seq<SecV>,
    pub lo: int,
    pub hi: int,
    pub done: bool,
}

/// One step of the upsert walk: resolve the running prefix, or synthesize
/// a block for it at the end of the current scope, shift every other
/// tracked range past the insertion, and record the new range.
pub open spec fn apply_seg(
    st: UpState,
    prefix: Seq<char>,
    seg: Seq<char>,
    depth: int,
    is_last: bool,
    entry: Seq<char>,
) -> UpState {
    if st.done {
        st
    } else {
        match find_sec(st.secs, prefix) {
            Some(sec) => UpState {
                lines: st.lines,
                secs: st.secs,
                lo: sec.start,
                hi: sec.end,
                done: false,
            },
            None => {
                let block = seg_block(depth, seg, is_last, entry);
                let p = st.hi;
                let d = block.len() as int;
                UpState {
                    lines: insert_lines(st.lines, p, block),
                    secs: shift_secs(st.secs, p, d).push(
                        SecV { path: prefix, start: p, end: p + d - 1 },
                    ),
                    lo: p,
                    hi: p + d - 1,
                    done: is_last,
                }
            },
        }
    }
}

/// The running prefix after consuming segments `0..=i`.
pub open spec fn prefix_of(segs: Seq<Seq<char>>, i: int) -> Seq<char> {
    path_join(segs.take(i + 1))
}

/// The upsert walk over the remaining segments, starting at segment `i`.
pub open spec fn apply_segs(st: UpState, segs: Seq<Seq<char>>, i: int, entry: Seq<char>) -> UpState
    decreases segs.len() - i,
{
    if i < 0 || i >= segs.len() {
        st
    } else {
        apply_segs(
            apply_seg(st, prefix_of(segs, i), segs[i], i, i == segs.len() - 1, entry),
            segs,
            i + 1,
            entry,
        )
    }
}

/// The final upsert inside the resolved scope: replace the first entry line
/// for the key in place, or insert the entry just before the scope's
/// closing brace and shift the ranges after it.
pub open spec fn apply_upsert(st: UpState, depth: int, entry: Seq<char>) -> (Seq<Seq<char>>, Seq<
    SecV,
>) {
    if st.done {
        (st.lines, st.secs)
    } else {
        let key = key_of(entry);
        let el = entry_line(depth, entry);
        match find_entry_from(st.lines, st.lo + 1, st.hi, key) {
            Some(j) => (st.lines.update(j, el), st.secs),
            None => (insert_lines(st.lines, st.hi, seq![el]), shift_secs(st.secs, st.hi, 1)),
        }
    }
}

/// A usable path segment: non-empty, and not beginning (after leading
/// whitespace) with `#`, which would synthesize a comment instead of a
/// section header.
pub open spec fn valid_seg(seg: Seq<char>) -> bool {
    seg.len() > 0 && (trim_front(seg).len() == 0 || trim_front(seg)[0] != '#')
}

/// A usable category path: every `.`-separated segment is usable.
pub open spec fn valid_path(path: Seq<char>) -> bool {
    forall|i: int|
        0 <= i < split_sep(path, '.').len() ==> valid_seg(#[trigger] split_sep(path, '.')[i])
}

/// The state the upsert walk starts from: the whole document, at top level.
pub open spec fn init_state(lines: Seq<Seq<char>>, secs: Seq<SecV>) -> UpState {
    UpState { lines, secs, lo: -1, hi: top_insert_pos(lines), done: false }
}

/// What `add_entry` does to the primary document: nothing for an invalid
/// path; otherwise the full walk followed by the upsert at the deepest
/// scope.
pub open spec fn spec_add_entry(
    lines: Seq<Seq<char>>,
    secs: Seq<SecV>,
    path: Seq<char>,
    entry: Seq<char>,
) -> (Seq<Seq<char>>, Seq<SecV>) {
    if !valid_path(path) {
        (lines, secs)
    } else {
        let segs = split_sep(path, '.');
        apply_upsert(apply_segs(init_state(lines, secs), segs, 0, entry), segs.len() as int, entry)
    }
}

/// How the lines of a document read after an insertion: unchanged before
/// the point, the block in the middle, the rest moved down.
pub proof fn lemma_insert_lines_index(lines: Seq<Seq<char>>, p: int, block: Seq<Seq<char>>)
    requires
        0 <= p <= lines.len(),
    ensures
        insert_lines(lines, p, block).len() == lines.len() + block.len(),
        forall|i: int| 0 <= i < p ==> insert_lines(lines, p, block)[i] == lines[i],
        forall|i: int|
            p <= i < p + block.len() ==> insert_lines(lines, p, block)[i] == block[i - p],
        forall|i: int|
            p + block.len() <= i < lines.len() + block.len() ==> insert_lines(lines, p, block)[i]
                == lines[i - block.len()],
{
    let r = insert_lines(lines, p, block);
    assert(r.len() == lines.len() + block.len());
    assert forall|i: int| 0 <= i < p implies r[i] == lines[i] by {
        assert(r[i] == lines.take(p)[i]);
    }
}

/// Two consecutive insertions amount to inserting the concatenated block.
pub proof fn lemma_insert_lines_concat(
    lines: Seq<Seq<char>>,
    p: int,
    b1: Seq<Seq<char>>,
    b2: Seq<Seq<char>>,
)
    requires
        0 <= p <= lines.len(),
    ensures
        insert_lines(insert_lines(lines, p, b1), p + b1.len(), b2) == insert_lines(
            lines,
            p,
            b1 + b2,
        ),
{
    lemma_insert_lines_index(lines, p, b1);
    let v1 = insert_lines(lines, p, b1);
    lemma_insert_lines_index(v1, p + b1.len(), b2);
    lemma_insert_lines_index(lines, p, b1 + b2);
    let v2 = insert_lines(v1, p + b1.len(), b2);
    let w = insert_lines(lines, p, b1 + b2);
    assert forall|x: int| 0 <= x < v2.len() implies v2[x] == w[x] by {
        if x < p {
        } else if x < p + b1.len() {
            assert(v2[x] == b1[x - p]);
            assert(w[x] == (b1 + b2)[x - p]);
        } else if x < p + b1.len() + b2.len() {
            assert(v2[x] == b2[x - p - b1.len()]);
            assert(w[x] == (b1 + b2)[x - p]);
        } else {
            assert(v2[x] == v1[x - b2.len()]);
            assert(v1[x - b2.len()] == lines[x - b2.len() - b1.len()]);
            assert(w[x] == lines[x - (b1.len() + b2.len())]);
        }
    }
    assert(v2 =~= w);
}

/// Inserting a block and shifting every bound at or after the insertion
/// point keeps all tracked ranges valid.
pub proof fn lemma_insert_shift_wf(
    lines: Seq<Seq<char>>,
    secs: Seq<SecV>,
    p: int,
    block: Seq<Seq<char>>,
)
    requires
        doc_wf(lines, secs),
        0 <= p <= lines.len(),
    ensures
        doc_wf(insert_lines(lines, p, block), shift_secs(secs, p, block.len() as int)),
{
    lemma_insert_lines_index(lines, p, block);
    let nl = insert_lines(lines, p, block);
    let ns = shift_secs(secs, p, block.len() as int);
    let d = block.len() as int;
    assert forall|k: int| 0 <= k < ns.len() implies sec_wf(nl, #[trigger] ns[k]) by {
        assert(sec_wf(lines, secs[k]));
        let s = secs[k];
        if s.start >= p {
            assert(nl[s.start + d] == lines[s.start]);
        } else {
            assert(nl[s.start] == lines[s.start]);
        }
        if s.end >= p {
            assert(nl[s.end + d] == lines[s.end]);
        } else {
            assert(nl[s.end] == lines[s.end]);
        }
    }
}

/// Overwriting a non-brace line leaves every tracked range valid.
pub proof fn lemma_update_wf(lines: Seq<Seq<char>>, secs: Seq<SecV>, j: int, l: Seq<char>)
    requires
        doc_wf(lines, secs),
        0 <= j < lines.len(),
        !opens_section(lines[j]),
        !closes_section(lines[j]),
    ensures
        doc_wf(lines.update(j, l), secs),
{
    let nl = lines.update(j, l);
    assert forall|k: int| 0 <= k < secs.len() implies sec_wf(nl, #[trigger] secs[k]) by {
        assert(sec_wf(lines, secs[k]));
        assert(secs[k].start != j);
        assert(secs[k].end != j);
    }
}

/// What a successful or failed section search means for the index.
pub proof fn lemma_find_sec_from_props(secs: Seq<SecV>, i: int, path: Seq<char>)
    requires
        0 <= i,
    ensures
        match find_sec_from(secs, i, path) {
            Some(s) => s.path == path && exists|k: int|
                i <= k < secs.len() && #[trigger] secs[k] == s,
            None => forall|k: int| i <= k < secs.len() ==> (#[trigger] secs[k]).path != path,
        },
    decreases secs.len() - i,
{
    if i < secs.len() {
        if secs[i].path == path {
            let s = secs[i];
            assert(i <= i < secs.len() && secs[i] == s);
        } else {
            lemma_find_sec_from_props(secs, i + 1, path);
            match find_sec_from(secs, i + 1, path) {
                Some(s) => {
                    let k = choose|k: int| i + 1 <= k < secs.len() && #[trigger] secs[k] == s;
                    assert(i <= k < secs.len() && secs[k] == s);
                },
                None => {
                },
            }
        }
    }
}

/// What a successful or failed entry search means for the scanned lines.
pub proof fn lemma_find_entry_from_props(lines: Seq<Seq<char>>, i: int, end: int, key: Seq<char>)
    requires
        0 <= i,
    ensures
        match find_entry_from(lines, i, end, key) {
            Some(j) => i <= j < end && j < lines.len() && is_entry(lines[j], key) && forall|m: int|
                i <= m < j ==> !is_entry(#[trigger] lines[m], key),
            None => forall|m: int|
                i <= m < end && m < lines.len() ==> !is_entry(#[trigger] lines[m], key),
        },
    decreases end - i,
{
    if i < end && i < lines.len() {
        if !is_entry(lines[i], key) {
            lemma_find_entry_from_props(lines, i + 1, end, key);
        }
    } else {
        if i >= lines.len() {
            assert forall|m: int| i <= m < end && m < lines.len() implies !is_entry(
                #[trigger] lines[m],
                key,
            ) by {}
        }
    }
}

/// Shifting the index moves a successful search's result along and keeps a
/// failed search failed: paths and order are untouched.
pub proof fn lemma_find_sec_shift(secs: Seq<SecV>, i: int, p: int, d: int, q: Seq<char>)
    requires
        0 <= i,
    ensures
        match find_sec_from(secs, i, q) {
            Some(s) => find_sec_from(shift_secs(secs, p, d), i, q) == Some(shift_sec(s, p, d)),
            None => find_sec_from(shift_secs(secs, p, d), i, q) is None,
        },
    decreases secs.len() - i,
{
    if i < secs.len() {
        assert(shift_secs(secs, p, d)[i] == shift_sec(secs[i], p, d));
        if secs[i].path == q {
        } else {
            lemma_find_sec_shift(secs, i + 1, p, d, q);
        }
    }
}

/// Appending one range only matters to a search that failed before.
pub proof fn lemma_find_sec_push(secs: Seq<SecV>, i: int, x: SecV, q: Seq<char>)
    requires
        0 <= i <= secs.len(),
    ensures
        find_sec_from(secs.push(x), i, q) == match find_sec_from(secs, i, q) {
            Some(s) => Some(s),
            None => if x.path == q {
                Some(x)
            } else {
                None::<SecV>
            },
        },
    decreases secs.len() - i,
{
    if i < secs.len() {
        assert(secs.push(x)[i] == secs[i]);
        if secs[i].path == q {
        } else {
            lemma_find_sec_push(secs, i + 1, x, q);
        }
    } else {
        assert(secs.push(x)[i] == x);
        assert(find_sec_from(secs, i, q) is None);
        assert(find_sec_from(secs.push(x), i + 1, q) is None);
    }
}

/// The first entry line is exactly `j` when everything before `j` in the
/// scanned range is no entry and `j` is one.
pub proof fn lemma_find_entry_at(
    lines: Seq<Seq<char>>,
    i: int,
    end: int,
    key: Seq<char>,
    j: int,
)
    requires
        0 <= i <= j < end,
        j < lines.len(),
        is_entry(lines[j], key),
        forall|m: int| i <= m < j ==> !is_entry(#[trigger] lines[m], key),
    ensures
        find_entry_from(lines, i, end, key) == Some(j),
    decreases j - i,
{
    if i < j {
        lemma_find_entry_at(lines, i + 1, end, key, j);
    }
}

/// An entry usable for an idempotent upsert: its written line must not read
/// as a brace line, or a second call would not find it again.
pub open spec fn entry_ok(entry: Seq<char>) -> bool {
    trim(entry).len() == 0 || (trim(entry).last() != '{' && trim(entry) != seq!['}'])
}

/// The written entry line trims to the trimmed entry: the indentation is
/// whitespace and the entry was trimmed before writing.
pub proof fn lemma_entry_line_trim(depth: int, entry: Seq<char>)
    ensures
        trim(entry_line(depth, entry)) == trim(entry),
{
    lemma_indent_ws(depth);
    crate::text::lemma_trim_front_concat_ws(indent_sp(depth), trim(entry));
    crate::text::lemma_trim_fixed(entry);
}

/// The line the upsert writes is found again by the key of the same entry.
pub proof fn lemma_written_line_is_entry(depth: int, entry: Seq<char>)
    requires
        entry_ok(entry),
    ensures
        is_entry(entry_line(depth, entry), key_of(entry)),
{
    lemma_entry_line_trim(depth, entry);
    let t = trim(entry);
    let el = entry_line(depth, entry);
    crate::text::lemma_find_char(t, '=');
    let p = find_char(t, '=');
    if p < t.len() {
        let k = trim_back(t.take(p));
        crate::text::lemma_trim_back_prefix(t.take(p));
        assert(k == t.take(p).take(k.len() as int));
        assert(t.take(p).take(k.len() as int) =~= t.take(k.len() as int));
        assert(starts_with(t, k));
        assert forall|m: int| k.len() <= m < p implies is_ws(t[m]) by {
            assert(is_ws(t.take(p)[m]));
        }
        assert(!is_ws('='));
        assert(t[p] == '=');
        crate::text::lemma_trim_front_at(t.skip(k.len() as int), p - k.len());
        assert(t.skip(k.len() as int).subrange(
            p - k.len(),
            t.skip(k.len() as int).len() as int,
        ) =~= t.subrange(p, t.len() as int));
        assert(trim_front(t.skip(k.len() as int))[0] == t[p]);
        assert(after_key_ok(t.skip(k.len() as int)));
        assert(line_matches(el, key_of(entry)));
    } else {
        assert(t.take(t.len() as int) =~= t);
        assert(starts_with(t, t));
        assert(t.skip(t.len() as int) =~= Seq::<char>::empty());
        assert(after_key_ok(t.skip(t.len() as int)));
        assert(line_matches(el, key_of(entry)));
    }
    if t.len() > 0 {
        assert(trim(el).last() != '{');
        assert(trim(el) != seq!['}']);
    } else {
        assert(trim(el).len() == 0);
    }
    assert(!opens_section(el));
    assert(!closes_section(el));
}

/// The indentation string is pure whitespace.
pub proof fn lemma_indent_ws(depth: int)
    ensures
        forall|j: int| 0 <= j < indent_sp(depth).len() ==> is_ws(#[trigger] indent_sp(depth)[j]),
    decreases depth,
{
    if depth > 0 {
        lemma_indent_ws(depth - 1);
        assert forall|j: int| 0 <= j < indent_sp(depth).len() implies is_ws(
            #[trigger] indent_sp(depth)[j],
        ) by {
            if j < indent_sp(depth - 1).len() {
                assert(indent_sp(depth)[j] == indent_sp(depth - 1)[j]);
            } else {
                assert(indent_sp(depth)[j] == seq![' ', ' ', ' ', ' '][j - indent_sp(
                    depth - 1,
                ).len()]);
            }
        }
    }
}

/// A synthesized section header opens a section.
pub proof fn lemma_head_opens(depth: int, seg: Seq<char>)
    requires
        valid_seg(seg),
    ensures
        opens_section(head_line(depth, seg)),
{
    let h = head_line(depth, seg);
    lemma_indent_ws(depth);
    crate::text::lemma_trim_front_concat_ws(indent_sp(depth), seg + seq![' ', '{']);
    assert(h =~= indent_sp(depth) + (seg + seq![' ', '{']));
    assert(trim_front(h) == trim_front(seg + seq![' ', '{']));
    if trim_front(seg).len() == 0 {
        assert forall|j: int| 0 <= j < seg.len() implies is_ws(seg[j]) by {
            if !is_ws(seg[j]) {
                lemma_trim_front_nonempty(seg, j);
            }
        }
        crate::text::lemma_trim_front_concat_ws(seg, seq![' ', '{']);
        assert(trim_front(seg + seq![' ', '{']) == trim_front(seq![' ', '{']));
        assert(is_ws(seq![' ', '{'][0]));
        assert(seq![' ', '{'].drop_first() =~= seq!['{']);
        assert(!is_ws('{'));
        assert(trim_front(seq!['{']) == seq!['{']);
        assert(trim_front(seq![' ', '{']) == seq!['{']);
        assert(trim_back(seq!['{']) == seq!['{']);
        assert(trim(h) =~= seq!['{']);
    } else {
        crate::text::lemma_trim_front_concat(seg, seq![' ', '{']);
        let t = trim_front(seg) + seq![' ', '{'];
        assert(trim_front(h) == t);
        assert(t.last() == '{');
        assert(!is_ws('{'));
        assert(trim_back(t) == t);
        assert(trim(h) == t);
        assert(trim(h)[0] == trim_front(seg)[0]);
        assert(trim(h)[0] != '#');
        assert(trim(h).last() == '{');
    }
}

/// A whitespace-free survivor at position `j` keeps `trim_front` non-empty.
proof fn lemma_trim_front_nonempty(s: Seq<char>, j: int)
    requires
        0 <= j < s.len(),
        !is_ws(s[j]),
    ensures
        trim_front(s).len() > 0,
    decreases s.len(),
{
    if s.len() > 0 && is_ws(s[0]) {
        lemma_trim_front_nonempty(s.drop_first(), j - 1);
    }
}

/// A synthesized closing line closes a section.
pub proof fn lemma_close_closes(depth: int)
    ensures
        closes_section(close_line(depth)),
{
    let c = close_line(depth);
    lemma_indent_ws(depth);
    crate::text::lemma_trim_front_concat_ws(indent_sp(depth), seq!['}']);
    assert(trim_front(c) == trim_front(seq!['}']));
    assert(!is_ws('}'));
    assert(trim_front(seq!['}']) == seq!['}']);
    assert(trim_back(seq!['}']) == seq!['}']);
}

/// The invariant the upsert walk maintains: a valid index and a scope whose
/// bounds are inside the document.
pub open spec fn st_inv(st: UpState) -> bool {
    &&& doc_wf(st.lines, st.secs)
    &&& -1 <= st.lo
    &&& st.lo < st.hi
    &&& st.hi <= st.lines.len()
}

/// One walk step preserves the invariant.
pub proof fn lemma_apply_seg_inv(
    st: UpState,
    prefix: Seq<char>,
    seg: Seq<char>,
    depth: int,
    is_last: bool,
    entry: Seq<char>,
)
    requires
        st_inv(st),
        valid_seg(seg),
    ensures
        st_inv(apply_seg(st, prefix, seg, depth, is_last, entry)),
{
    if !st.done {
        lemma_find_sec_from_props(st.secs, 0, prefix);
        match find_sec(st.secs, prefix) {
            Some(sec) => {
                let k = choose|k: int| 0 <= k < st.secs.len() && #[trigger] st.secs[k] == sec;
                assert(sec_wf(st.lines, st.secs[k]));
            },
            None => {
                let block = seg_block(depth, seg, is_last, entry);
                let p = st.hi;
                let d = block.len() as int;
                lemma_insert_shift_wf(st.lines, st.secs, p, block);
                lemma_insert_lines_index(st.lines, p, block);
                lemma_head_opens(depth, seg);
                lemma_close_closes(depth);
                let nl = insert_lines(st.lines, p, block);
                let ns = shift_secs(st.secs, p, d).push(SecV { path: prefix, start: p, end: p + d - 1 });
                assert(nl[p] == block[0]);
                assert(nl[p + d - 1] == block[d - 1]);
                assert(block[d - 1] == close_line(depth));
                assert(sec_wf(nl, SecV { path: prefix, start: p, end: p + d - 1 }));
                assert forall|k: int| 0 <= k < ns.len() implies sec_wf(nl, #[trigger] ns[k]) by {
                    if k < ns.len() - 1 {
                        assert(ns[k] == shift_secs(st.secs, p, d)[k]);
                        assert(sec_wf(nl, shift_secs(st.secs, p, d)[k]));
                    }
                }
            },
        }
    }
}

/// The whole walk preserves the invariant.
pub proof fn lemma_apply_segs_inv(st: UpState, segs: Seq<Seq<char>>, i: int, entry: Seq<char>)
    requires
        st_inv(st),
        0 <= i,
        forall|k: int| 0 <= k < segs.len() ==> valid_seg(#[trigger] segs[k]),
    ensures
        st_inv(apply_segs(st, segs, i, entry)),
    decreases segs.len() - i,
{
    if i < segs.len() {
        lemma_apply_seg_inv(st, prefix_of(segs, i), segs[i], i, i == segs.len() - 1, entry);
        lemma_apply_segs_inv(
            apply_seg(st, prefix_of(segs, i), segs[i], i, i == segs.len() - 1, entry),
            segs,
            i + 1,
            entry,
        );
    }
}

/// Once the entry is embedded, the rest of the walk changes nothing.
pub proof fn lemma_apply_segs_done(st: UpState, segs: Seq<Seq<char>>, i: int, entry: Seq<char>)
    requires
        st.done,
    ensures
        apply_segs(st, segs, i, entry) == st,
    decreases segs.len() - i,
{
    if 0 <= i < segs.len() {
        lemma_apply_segs_done(st, segs, i + 1, entry);
    }
}

/// A path that resolves keeps resolving after one walk step.
pub proof fn lemma_apply_seg_preserves(
    st: UpState,
    prefix: Seq<char>,
    seg: Seq<char>,
    depth: int,
    is_last: bool,
    entry: Seq<char>,
    q: Seq<char>,
)
    requires
        find_sec(st.secs, q) is Some,
    ensures
        find_sec(apply_seg(st, prefix, seg, depth, is_last, entry).secs, q) is Some,
{
    if !st.done {
        match find_sec(st.secs, prefix) {
            Some(_) => {
            },
            None => {
                let block = seg_block(depth, seg, is_last, entry);
                let p = st.hi;
                let d = block.len() as int;
                lemma_find_sec_shift(st.secs, 0, p, d, q);
                lemma_find_sec_push(
                    shift_secs(st.secs, p, d),
                    0,
                    SecV { path: prefix, start: p, end: p + d - 1 },
                    q,
                );
            },
        }
    }
}

/// After one walk step its own prefix resolves.
pub proof fn lemma_apply_seg_registers(
    st: UpState,
    prefix: Seq<char>,
    seg: Seq<char>,
    depth: int,
    is_last: bool,
    entry: Seq<char>,
)
    requires
        !st.done,
    ensures
        find_sec(apply_seg(st, prefix, seg, depth, is_last, entry).secs, prefix) is Some,
{
    match find_sec(st.secs, prefix) {
        Some(_) => {
        },
        None => {
            let block = seg_block(depth, seg, is_last, entry);
            let p = st.hi;
            let d = block.len() as int;
            lemma_find_sec_shift(st.secs, 0, p, d, prefix);
            lemma_find_sec_push(
                shift_secs(st.secs, p, d),
                0,
                SecV { path: prefix, start: p, end: p + d - 1 },
                prefix,
            );
        },
    }
}

/// A path that resolves keeps resolving through the rest of the walk.
pub proof fn lemma_apply_segs_preserves(
    st: UpState,
    segs: Seq<Seq<char>>,
    i: int,
    entry: Seq<char>,
    q: Seq<char>,
)
    requires
        0 <= i,
        find_sec(st.secs, q) is Some,
    ensures
        find_sec(apply_segs(st, segs, i, entry).secs, q) is Some,
    decreases segs.len() - i,
{
    if i < segs.len() {
        lemma_apply_seg_preserves(
            st,
            prefix_of(segs, i),
            segs[i],
            i,
            i == segs.len() - 1,
            entry,
            q,
        );
        lemma_apply_segs_preserves(
            apply_seg(st, prefix_of(segs, i), segs[i], i, i == segs.len() - 1, entry),
            segs,
            i + 1,
            entry,
            q,
        );
    }
}

/// After the walk, every running prefix of the remaining segments resolves
/// in the resulting index.
pub proof fn lemma_walk_registers(st: UpState, segs: Seq<Seq<char>>, i: int, entry: Seq<char>)
    requires
        0 <= i,
        !st.done,
    ensures
        forall|m: int|
            i <= m < segs.len() ==> find_sec(
                apply_segs(st, segs, i, entry).secs,
                #[trigger] prefix_of(segs, m),
            ) is Some,
    decreases segs.len() - i,
{
    if i < segs.len() {
        let stepped = apply_seg(st, prefix_of(segs, i), segs[i], i, i == segs.len() - 1, entry);
        lemma_apply_seg_registers(st, prefix_of(segs, i), segs[i], i, i == segs.len() - 1, entry);
        if stepped.done {
            lemma_apply_segs_done(stepped, segs, i + 1, entry);
        } else {
            lemma_walk_registers(stepped, segs, i + 1, entry);
            lemma_apply_segs_preserves(stepped, segs, i + 1, entry, prefix_of(segs, i));
        }
    }
}

/// Where the walk ends: the deepest prefix resolves to exactly the scope
/// the walk reached, and when the walk embedded the entry, the scope is a
/// fresh block with the entry line alone in its interior.
pub proof fn lemma_walk_final_scope(st: UpState, segs: Seq<Seq<char>>, i: int, entry: Seq<char>)
    requires
        0 <= i < segs.len(),
        !st.done,
        st_inv(st),
        forall|k: int| 0 <= k < segs.len() ==> valid_seg(#[trigger] segs[k]),
    ensures
        ({
            let w = apply_segs(st, segs, i, entry);
            let pre = prefix_of(segs, segs.len() - 1);
            &&& find_sec(w.secs, pre) == Some(SecV { path: pre, start: w.lo, end: w.hi })
            &&& (w.done ==> w.hi == w.lo + 2 && 0 <= w.lo && w.lo + 1 < w.lines.len()
                && w.lines[w.lo + 1] == entry_line(segs.len() as int, entry))
        }),
    decreases segs.len() - i,
{
    let pre_i = prefix_of(segs, i);
    let stepped = apply_seg(st, pre_i, segs[i], i, i == segs.len() - 1, entry);
    lemma_apply_seg_inv(st, pre_i, segs[i], i, i == segs.len() - 1, entry);
    if i == segs.len() - 1 {
        assert(apply_segs(stepped, segs, i + 1, entry) == stepped);
        match find_sec(st.secs, pre_i) {
            Some(sec) => {
                lemma_find_sec_from_props(st.secs, 0, pre_i);
                assert(sec.path == pre_i);
                assert(sec == SecV { path: pre_i, start: sec.start, end: sec.end });
                assert(apply_segs(st, segs, i, entry) == stepped);
            },
            None => {
                let block = seg_block(i as int, segs[i], true, entry);
                let p = st.hi;
                let d = block.len() as int;
                assert(d == 3);
                lemma_find_sec_shift(st.secs, 0, p, d, pre_i);
                let pushed = SecV { path: pre_i, start: p, end: p + d - 1 };
                lemma_find_sec_push(shift_secs(st.secs, p, d), 0, pushed, pre_i);
                lemma_insert_lines_index(st.lines, p, block);
                assert(stepped.lines[p + 1] == block[1]);
                assert(block[1] == entry_line(i + 1, entry));
                assert(apply_segs(st, segs, i, entry) == stepped);
            },
        }
    } else {
        assert(!stepped.done);
        lemma_walk_final_scope(stepped, segs, i + 1, entry);
        assert(apply_segs(st, segs, i, entry) == apply_segs(stepped, segs, i + 1, entry));
    }
}

/// When every remaining prefix already resolves, the walk only moves the
/// scope: the document and its index stay untouched, and the final scope is
/// the recorded range of the deepest prefix.
pub proof fn lemma_walk_all_found(st: UpState, segs: Seq<Seq<char>>, i: int, entry: Seq<char>)
    requires
        0 <= i < segs.len(),
        !st.done,
        forall|m: int|
            i <= m < segs.len() ==> find_sec(st.secs, #[trigger] prefix_of(segs, m)) is Some,
    ensures
        ({
            let w = apply_segs(st, segs, i, entry);
            &&& w.lines == st.lines
            &&& w.secs == st.secs
            &&& !w.done
            &&& match find_sec(st.secs, prefix_of(segs, segs.len() - 1)) {
                Some(f) => w.lo == f.start && w.hi == f.end,
                None => false,
            }
        }),
    decreases segs.len() - i,
{
    let pre_i = prefix_of(segs, i);
    assert(find_sec(st.secs, pre_i) is Some);
    let stepped = apply_seg(st, pre_i, segs[i], i, i == segs.len() - 1, entry);
    if i == segs.len() - 1 {
        assert(apply_segs(stepped, segs, i + 1, entry) == stepped);
        assert(apply_segs(st, segs, i, entry) == stepped);
    } else {
        assert(stepped.lines == st.lines && stepped.secs == st.secs && !stepped.done);
        lemma_walk_all_found(stepped, segs, i + 1, entry);
        assert(apply_segs(st, segs, i, entry) == apply_segs(stepped, segs, i + 1, entry));
    }
}

/// The final upsert keeps every tracked range valid.
pub proof fn lemma_apply_upsert_wf(st: UpState, depth: int, entry: Seq<char>)
    requires
        st_inv(st),
    ensures
        doc_wf(apply_upsert(st, depth, entry).0, apply_upsert(st, depth, entry).1),
{
    if !st.done {
        let key = key_of(entry);
        lemma_find_entry_from_props(st.lines, st.lo + 1, st.hi, key);
        match find_entry_from(st.lines, st.lo + 1, st.hi, key) {
            Some(j) => {
                lemma_update_wf(st.lines, st.secs, j, entry_line(depth, entry));
            },
            None => {
                lemma_insert_shift_wf(st.lines, st.secs, st.hi, seq![entry_line(depth, entry)]);
            },
        }
    }
}

/// `add_entry` keeps every tracked range valid: after any sequence of
/// edits, each range still starts at a `{` line and ends at a `}` line.
pub proof fn lemma_add_entry_wf(
    lines: Seq<Seq<char>>,
    secs: Seq<SecV>,
    path: Seq<char>,
    entry: Seq<char>,
)
    requires
        doc_wf(lines, secs),
    ensures
        doc_wf(spec_add_entry(lines, secs, path, entry).0, spec_add_entry(lines, secs, path, entry).1),
{
    if valid_path(path) {
        let segs = split_sep(path, '.');
        let st0 = init_state(lines, secs);
        assert(st_inv(st0));
        lemma_apply_segs_inv(st0, segs, 0, entry);
        lemma_apply_upsert_wf(apply_segs(st0, segs, 0, entry), segs.len() as int, entry);
    }
}

} // verus!
