//! Document-level laws: properties that relate several operations, proved
//! over the same model the executable contracts use.

use vstd::prelude::*;

use crate::model::apply_segs;
use crate::model::apply_upsert;
use crate::model::doc_wf;
use crate::model::entry_line;
use crate::model::entry_ok;
use crate::model::find_entry_from;
use crate::model::find_sec;
use crate::model::get_key;
use crate::model::get_path;
use crate::model::init_state;
use crate::model::insert_lines;
use crate::model::is_entry;
use crate::model::key_of;
use crate::model::lemma_apply_segs_inv;
use crate::model::lemma_find_entry_at;
use crate::model::lemma_find_entry_from_props;
use crate::model::lemma_find_sec_shift;
use crate::model::lemma_insert_lines_index;
use crate::model::lemma_walk_all_found;
use crate::model::lemma_walk_final_scope;
use crate::model::lemma_walk_registers;
use crate::model::lemma_written_line_is_entry;
use crate::model::lookup_doc;
use crate::model::prefix_of;
use crate::model::shift_sec;
use crate::model::shift_secs;
use crate::model::sourced_lookup;
use crate::model::spec_add_entry;
use crate::model::spec_get;
use crate::model::st_inv;
use crate::model::valid_path;
use crate::model::ConfigV;
use crate::model::DocV;
use crate::model::SecV;
use crate::text::join_with;
use crate::text::lemma_join_split;
use crate::text::lemma_split_basic;
use crate::text::split_sep;

verus! {

/// Round trip: `parse` keeps a document's lines exactly as split from the
/// input, and `to_string` joins them back, so a document with no edits
/// serializes to the original text.
pub proof fn lemma_parse_to_string_round_trip(text: Seq<char>)
    ensures
        join_with(split_sep(text, '\n'), '\n') == text,
{
    lemma_join_split(text, '\n');
}

proof fn lemma_sourced_lookup_hit(
    docs: Seq<DocV>,
    j: int,
    i: int,
    p: Seq<char>,
    k: Seq<char>,
    v: Seq<char>,
)
    requires
        0 <= j <= i < docs.len(),
        lookup_doc(docs[i].lines, docs[i].secs, p, k) == Some(v),
        forall|m: int|
            j <= m < i ==> lookup_doc((#[trigger] docs[m]).lines, docs[m].secs, p, k) is None,
    ensures
        sourced_lookup(docs, j, p, k) == v,
    decreases i - j,
{
    if j < i {
        lemma_sourced_lookup_hit(docs, j + 1, i, p, k, v);
    }
}

/// Sourced fallback: when the queried entry is absent from the primary
/// document, `get` returns the value of the first registered sourced
/// document that holds it.
pub proof fn lemma_sourced_fallback(
    c: ConfigV,
    category: Seq<char>,
    name: Seq<char>,
    i: int,
    v: Seq<char>,
)
    requires
        lookup_doc(c.lines, c.secs, get_path(category, name), get_key(name)) is None,
        0 <= i < c.sourced.len(),
        lookup_doc(
            c.sourced[i].lines,
            c.sourced[i].secs,
            get_path(category, name),
            get_key(name),
        ) == Some(v),
        forall|m: int|
            0 <= m < i ==> lookup_doc(
                (#[trigger] c.sourced[m]).lines,
                c.sourced[m].secs,
                get_path(category, name),
                get_key(name),
            ) is None,
    ensures
        spec_get(c, category, name) == v,
{
    lemma_sourced_lookup_hit(c.sourced, 0, i, get_path(category, name), get_key(name), v);
}

/// Idempotence: repeating `add_entry` with identical arguments changes
/// nothing the second time. The first call leaves the entry's written line
/// inside the resolved scope; the second call resolves the same scope and
/// finds that line again, overwriting it with identical text. The entry
/// must not read as a brace line once written (`entry_ok`): such an entry
/// becomes structure and is deliberately never matched by the scan.
pub proof fn lemma_add_entry_idempotent(
    lines: Seq<Seq<char>>,
    secs: Seq<SecV>,
    path: Seq<char>,
    entry: Seq<char>,
)
    requires
        doc_wf(lines, secs),
        entry_ok(entry),
    ensures
        ({
            let once = spec_add_entry(lines, secs, path, entry);
            spec_add_entry(once.0, once.1, path, entry) == once
        }),
{
    if valid_path(path) {
        let segs = split_sep(path, '.');
        let n = segs.len() as int;
        lemma_split_basic(path, '.');
        let st0 = init_state(lines, secs);
        assert(st_inv(st0));
        lemma_apply_segs_inv(st0, segs, 0, entry);
        let w = apply_segs(st0, segs, 0, entry);
        lemma_walk_registers(st0, segs, 0, entry);
        lemma_walk_final_scope(st0, segs, 0, entry);
        let pre = prefix_of(segs, n - 1);
        let f1 = SecV { path: pre, start: w.lo, end: w.hi };
        assert(find_sec(w.secs, pre) == Some(f1));
        let key = key_of(entry);
        let el = entry_line(n, entry);
        lemma_written_line_is_entry(n, entry);
        let once = apply_upsert(w, n, entry);
        let l1 = once.0;
        let s1 = once.1;
        let st0b = init_state(l1, s1);
        if w.done {
            assert(l1 == w.lines && s1 == w.secs);
            assert forall|m: int| 0 <= m < segs.len() implies find_sec(
                s1,
                #[trigger] prefix_of(segs, m),
            ) is Some by {}
            lemma_walk_all_found(st0b, segs, 0, entry);
            let w2 = apply_segs(st0b, segs, 0, entry);
            assert(w2.lines == l1 && w2.secs == s1 && !w2.done);
            assert(w2.lo == f1.start && w2.hi == f1.end);
            let j = w.lo + 1;
            assert(l1[j] == el);
            lemma_find_entry_at(l1, w.lo + 1, w.hi, key, j);
            assert(find_entry_from(w2.lines, w2.lo + 1, w2.hi, key) == Some(j));
            assert(l1.update(j, el) =~= l1);
            assert(apply_upsert(w2, n, entry) == (l1, s1));
        } else {
            lemma_find_entry_from_props(w.lines, w.lo + 1, w.hi, key);
            match find_entry_from(w.lines, w.lo + 1, w.hi, key) {
                Some(j) => {
                    assert(l1 == w.lines.update(j, el) && s1 == w.secs);
                    assert forall|m: int| 0 <= m < segs.len() implies find_sec(
                        s1,
                        #[trigger] prefix_of(segs, m),
                    ) is Some by {}
                    lemma_walk_all_found(st0b, segs, 0, entry);
                    let w2 = apply_segs(st0b, segs, 0, entry);
                    assert(w2.lines == l1 && w2.secs == s1 && !w2.done);
                    assert(w2.lo == f1.start && w2.hi == f1.end);
                    assert forall|m: int| w.lo + 1 <= m < j implies !is_entry(
                        #[trigger] l1[m],
                        key,
                    ) by {
                        assert(l1[m] == w.lines[m]);
                    }
                    assert(l1[j] == el);
                    lemma_find_entry_at(l1, w.lo + 1, w.hi, key, j);
                    assert(find_entry_from(w2.lines, w2.lo + 1, w2.hi, key) == Some(j));
                    assert(l1.update(j, el) =~= l1);
                    assert(apply_upsert(w2, n, entry) == (l1, s1));
                },
                None => {
                    assert(l1 == insert_lines(w.lines, w.hi, seq![el]) && s1 == shift_secs(
                        w.secs,
                        w.hi,
                        1,
                    ));
                    lemma_insert_lines_index(w.lines, w.hi, seq![el]);
                    assert forall|m: int| 0 <= m < segs.len() implies find_sec(
                        s1,
                        #[trigger] prefix_of(segs, m),
                    ) is Some by {
                        lemma_find_sec_shift(w.secs, 0, w.hi, 1, prefix_of(segs, m));
                    }
                    lemma_walk_all_found(st0b, segs, 0, entry);
                    let w2 = apply_segs(st0b, segs, 0, entry);
                    assert(w2.lines == l1 && w2.secs == s1 && !w2.done);
                    lemma_find_sec_shift(w.secs, 0, w.hi, 1, pre);
                    let f2 = shift_sec(f1, w.hi, 1);
                    assert(find_sec(s1, pre) == Some(f2));
                    assert(w2.lo == f2.start && w2.hi == f2.end);
                    assert(f2.start == w.lo);
                    assert(f2.end == w.hi + 1);
                    assert forall|m: int| w.lo + 1 <= m < w.hi implies !is_entry(
                        #[trigger] l1[m],
                        key,
                    ) by {
                        assert(l1[m] == w.lines[m]);
                        assert(!is_entry(w.lines[m], key));
                    }
                    assert(l1[w.hi] == el);
                    lemma_find_entry_at(l1, w.lo + 1, w.hi + 1, key, w.hi);
                    assert(find_entry_from(w2.lines, w2.lo + 1, w2.hi, key) == Some(w.hi));
                    assert(l1.update(w.hi, el) =~= l1);
                    assert(apply_upsert(w2, n, entry) == (l1, s1));
                },
            }
        }
        assert(spec_add_entry(l1, s1, path, entry) == (l1, s1));
    }
}

} // verus!
