//! The name-keyed index of a traversal.
//!
//! [`build_index_from_records`] turns the records of a traversal into groups
//! of [`FileEntry`], one group per stem name, with the group keys strictly
//! sorted and the entries of each group in traversal order.  Directories
//! contribute nothing.  [`generate_entries_map`] walks a root first and then
//! builds the index of what the walk reported.

use vstd::prelude::*;
use vstd::string::*;

use crate::seqs::{lemma_filter_elem_source, lemma_filter_push};
use crate::strings::{
    ext_of, lemma_lex_trans, lemma_lex_trichotomy, lex_lt, split_name, stem_of, str_eq, str_lt,
};
use crate::walk::{records_bounded, walk_dir, RawEntry};

verus! {

/// One indexed file: the path of the directory that holds it, its stem
/// name, and its extension (empty when the file name has no `'.'`).
#[derive(Debug, Hash)]
pub struct FileEntry {
    pub path: String,
    pub name: String,
    pub extension: String,
}

impl FileEntry {
    /// Makes an entry of the given directory path, stem name and extension.
    pub fn new(path: String, name: String, ext: String) -> (e: FileEntry)
        ensures
            e.path == path,
            e.name == name,
            e.extension == ext,
    {
        FileEntry { path, name, extension: ext }
    }

    /// The full path of the file: the directory, a separator, the stem, and
    /// the extension after a dot when there is one.
    pub fn full_path(&self) -> (r: String)
        ensures
            self.extension@.len() == 0 ==> r@ == self.path@ + seq!['/'] + self.name@,
            self.extension@.len() > 0 ==> r@ == self.path@ + seq!['/'] + self.name@ + seq!['.']
                + self.extension@,
    {
        proof {
            reveal_strlit("/");
            reveal_strlit(".");
            assert("/"@ =~= seq!['/']);
            assert("."@ =~= seq!['.']);
        }
        let mut r = self.path.clone();
        r.append("/");
        r.append(self.name.as_str());
        if !self.extension.as_str().is_empty() {
            r.append(".");
            r.append(self.extension.as_str());
        }
        r
    }
}

/// The entries of one stem name, in traversal order.
#[derive(Debug)]
pub struct IndexGroup {
    pub name: String,
    pub entries: Vec<FileEntry>,
}

/// The records that contribute an entry under key `k`: those of regular
/// files whose name has stem `k`.
pub open spec fn key_pred(k: Seq<char>) -> spec_fn(RawEntry) -> bool {
    |r: RawEntry| !r.is_dir && stem_of(r.file_name@) == k
}

/// The subsequence of `records` that contribute an entry under key `k`, in
/// traversal order.
pub open spec fn records_for_key(records: Seq<RawEntry>, k: Seq<char>) -> Seq<RawEntry> {
    records.filter(key_pred(k))
}

/// How an index entry reflects the traversal record it came from: stem and
/// extension split from the record's file name at its last `'.'`, and the
/// record's parent directory as the entry's path.
pub open spec fn entry_matches_record(e: FileEntry, r: RawEntry) -> bool {
    &&& e.name@ == stem_of(r.file_name@)
    &&& e.extension@ == ext_of(r.file_name@)
    &&& e.path@ == r.parent@
}

/// The group holds exactly the entries of the records for its key, in
/// traversal order.
pub open spec fn group_matches(g: IndexGroup, records: Seq<RawEntry>) -> bool {
    let rs = records_for_key(records, g.name@);
    &&& g.entries@.len() == rs.len()
    &&& forall|i: int| 0 <= i < rs.len() ==> entry_matches_record(#[trigger] g.entries@[i], rs[i])
}

/// The group keys are strictly sorted, hence unique.
pub open spec fn index_sorted(idx: Seq<IndexGroup>) -> bool {
    forall|i: int, j: int|
        0 <= i < j < idx.len() ==> lex_lt(#[trigger] idx[i].name@, #[trigger] idx[j].name@)
}

/// Whether `idx` has a group keyed `k`.
pub open spec fn index_has_key(idx: Seq<IndexGroup>, k: Seq<char>) -> bool {
    exists|i: int| 0 <= i < idx.len() && (#[trigger] idx[i]).name@ == k
}

/// The full statement of what the index of a traversal is: keys strictly
/// sorted; under each key exactly that key's records, in traversal order; a
/// key for every regular-file record, and no key without records.
pub open spec fn index_matches_records(idx: Seq<IndexGroup>, records: Seq<RawEntry>) -> bool {
    &&& index_sorted(idx)
    &&& forall|i: int| 0 <= i < idx.len() ==> group_matches(#[trigger] idx[i], records)
    &&& forall|i: int|
        0 <= i < idx.len() ==> records_for_key(records, (#[trigger] idx[i]).name@).len() > 0
    &&& forall|j: int|
        0 <= j < records.len() && !(#[trigger] records[j]).is_dir ==> index_has_key(
            idx,
            stem_of(records[j].file_name@),
        )
}

/// Structural well-formedness of an index on its own: keys strictly sorted
/// and every entry named after its group.
pub open spec fn index_wf(idx: Seq<IndexGroup>) -> bool {
    &&& index_sorted(idx)
    &&& forall|i: int, j: int|
        0 <= i < idx.len() && 0 <= j < idx[i].entries@.len() ==> (#[trigger] idx[i].entries@[j]).name@
            == idx[i].name@
}

/// An index that matches some traversal is well formed.
pub proof fn lemma_index_matches_implies_wf(idx: Seq<IndexGroup>, records: Seq<RawEntry>)
    requires
        index_matches_records(idx, records),
    ensures
        index_wf(idx),
{
    assert forall|i: int, j: int|
        0 <= i < idx.len() && 0 <= j < idx[i].entries@.len() implies (#[trigger] idx[i].entries@[j]).name@
        == idx[i].name@ by {
        assert(group_matches(idx[i], records));
        let rs = records_for_key(records, idx[i].name@);
        lemma_filter_elem_source(records, key_pred(idx[i].name@), j);
        assert(key_pred(idx[i].name@)(rs[j]));
        assert(entry_matches_record(idx[i].entries@[j], rs[j]));
    }
}

/// Every entry of an index that matches a traversal arose from one of the
/// traversal's records: a regular file — never a directory — whose file name
/// splits into the entry's name and extension at its last `'.'`, and whose
/// parent directory is the entry's path.
pub proof fn lemma_entry_provenance(
    idx: Seq<IndexGroup>,
    records: Seq<RawEntry>,
    i: int,
    j: int,
)
    requires
        index_matches_records(idx, records),
        0 <= i < idx.len(),
        0 <= j < idx[i].entries@.len(),
    ensures
        exists|m: int|
            0 <= m < records.len() && !(#[trigger] records[m]).is_dir && entry_matches_record(
                idx[i].entries@[j],
                records[m],
            ),
{
    let k = idx[i].name@;
    let rs = records_for_key(records, k);
    assert(group_matches(idx[i], records));
    lemma_filter_elem_source(records, key_pred(k), j);
    let m = choose|m: int| 0 <= m < records.len() && records[m] == rs[j];
    assert(key_pred(k)(rs[j]));
    assert(entry_matches_record(idx[i].entries@[j], rs[j]));
    assert(
        0 <= m < records.len() && !records[m].is_dir && entry_matches_record(
            idx[i].entries@[j],
            records[m],
        )
    );
}

/// In an index of a depth-bounded traversal, every entry arose from a
/// regular-file record at depth at most the bound.
pub proof fn lemma_entry_depth_bounded(
    idx: Seq<IndexGroup>,
    records: Seq<RawEntry>,
    max_depth: int,
    i: int,
    j: int,
)
    requires
        index_matches_records(idx, records),
        records_bounded(records, max_depth),
        0 <= i < idx.len(),
        0 <= j < idx[i].entries@.len(),
    ensures
        exists|m: int|
            0 <= m < records.len() && !(#[trigger] records[m]).is_dir && records[m].depth
                <= max_depth && entry_matches_record(idx[i].entries@[j], records[m]),
{
    lemma_entry_provenance(idx, records, i, j);
    let m = choose|m: int|
        0 <= m < records.len() && !(#[trigger] records[m]).is_dir && entry_matches_record(
            idx[i].entries@[j],
            records[m],
        );
    assert(records[m].depth <= max_depth);
}

/// Appending one record changes the records of its own key alone, and of no
/// other key; a directory record changes none.
proof fn lemma_records_for_key_push(records: Seq<RawEntry>, r: RawEntry)
    ensures
        forall|k: Seq<char>|
            #[trigger] records_for_key(records.push(r), k) == (if !r.is_dir && stem_of(
                r.file_name@,
            ) == k {
                records_for_key(records, k).push(r)
            } else {
                records_for_key(records, k)
            }),
{
    assert forall|k: Seq<char>|
        #[trigger] records_for_key(records.push(r), k) == (if !r.is_dir && stem_of(r.file_name@)
            == k {
            records_for_key(records, k).push(r)
        } else {
            records_for_key(records, k)
        }) by {
        lemma_filter_push(records, r, key_pred(k));
    }
}

/// Finds where `key` stands, or belongs, in the sorted group list: the first
/// position whose name is not below `key`, and whether that position already
/// carries `key`.
fn find_slot(idx: &Vec<IndexGroup>, key: &str) -> (r: (usize, bool))
    requires
        index_sorted(idx@),
    ensures
        r.0 <= idx@.len(),
        forall|q: int| 0 <= q < r.0 ==> lex_lt(#[trigger] idx@[q].name@, key@),
        r.1 ==> r.0 < idx@.len() && idx@[r.0 as int].name@ == key@,
        !r.1 && r.0 < idx@.len() ==> lex_lt(key@, idx@[r.0 as int].name@),
{
    let n: usize = idx.len();
    let mut i: usize = 0;
    while i < n
        invariant
            i <= n,
            n == idx@.len(),
            index_sorted(idx@),
            forall|q: int| 0 <= q < i ==> lex_lt(#[trigger] idx@[q].name@, key@),
        decreases n - i,
    {
        let g = &idx[i];
        if str_eq(g.name.as_str(), key) {
            return (i, true);
        }
        if str_lt(key, g.name.as_str()) {
            return (i, false);
        }
        proof {
            lemma_lex_trichotomy(idx@[i as int].name@, key@);
        }
        i = i + 1;
    }
    (n, false)
}

/// No group of a sorted index other than one found by position carries a key
/// that the slot search placed strictly between, before or after them.
proof fn lemma_no_other_key(idx: Seq<IndexGroup>, pos: int, k: Seq<char>)
    requires
        index_sorted(idx),
        0 <= pos <= idx.len(),
        forall|q: int| 0 <= q < pos ==> lex_lt(#[trigger] idx[q].name@, k),
        pos < idx.len() ==> lex_lt(k, idx[pos as int].name@),
    ensures
        forall|q: int| 0 <= q < idx.len() ==> (#[trigger] idx[q]).name@ != k,
        !index_has_key(idx, k),
{
    assert forall|q: int| 0 <= q < idx.len() implies (#[trigger] idx[q]).name@ != k by {
        if q < pos {
            lemma_lex_trichotomy(idx[q].name@, k);
        } else {
            if idx[q].name@ == k {
                if q > pos {
                    assert(lex_lt(idx[pos].name@, idx[q].name@));
                    lemma_lex_trans(k, idx[pos].name@, idx[q].name@);
                }
                lemma_lex_trichotomy(k, k);
            }
        }
    }
}

/// Carries one freshly split regular-file record into the index, keeping the
/// index the exact grouping of the records seen so far.
fn push_record_entry(
    idx: &mut Vec<IndexGroup>,
    Ghost(records): Ghost<Seq<RawEntry>>,
    r: &RawEntry,
    stem: String,
    entry: FileEntry,
)
    requires
        index_matches_records(old(idx)@, records),
        !r.is_dir,
        stem@ == stem_of(r.file_name@),
        entry_matches_record(entry, *r),
    ensures
        index_matches_records(final(idx)@, records.push(*r)),
{
    let ghost oldidx = idx@;
    let ghost k = stem_of(r.file_name@);
    let ghost new_records = records.push(*r);
    proof {
        lemma_records_for_key_push(records, *r);
    }
    let (pos, found) = find_slot(idx, stem.as_str());
    if found {
        let mut g = idx.remove(pos);
        g.entries.push(entry);
        idx.insert(pos, g);
        proof {
            assert(idx@.len() == oldidx.len());
            assert forall|q: int| 0 <= q < idx@.len() && q != pos implies idx@[q] == oldidx[q] by {
                if q < pos {
                    assert(idx@[q] == oldidx.remove(pos as int)[q]);
                } else {
                    assert(idx@[q] == oldidx.remove(pos as int)[q - 1]);
                }
            }
            assert(idx@[pos as int].name@ == k);
            assert(idx@[pos as int].entries@ == oldidx[pos as int].entries@.push(entry));
            // keys are unchanged, so the order and the key set are unchanged
            assert forall|q: int| 0 <= q < idx@.len() implies (#[trigger] idx@[q]).name@
                == oldidx[q].name@ by {}
            assert(index_sorted(idx@));
            // no other group carries k
            assert forall|q: int| 0 <= q < idx@.len() && q != pos implies (#[trigger] idx@[q]).name@
                != k by {
                if q < pos {
                    assert(lex_lt(oldidx[q].name@, oldidx[pos as int].name@));
                } else {
                    assert(lex_lt(oldidx[pos as int].name@, oldidx[q].name@));
                }
                if idx@[q].name@ == k {
                    lemma_lex_trichotomy(k, k);
                }
            }
            assert forall|q: int| 0 <= q < idx@.len() implies group_matches(
                #[trigger] idx@[q],
                new_records,
            ) by {
                assert(group_matches(oldidx[q], records));
                if q != pos {
                    assert(records_for_key(new_records, idx@[q].name@) == records_for_key(
                        records,
                        idx@[q].name@,
                    ));
                } else {
                    let rs = records_for_key(records, k);
                    let rs2 = records_for_key(new_records, k);
                    assert(rs2 == rs.push(*r));
                    assert forall|e: int| 0 <= e < rs2.len() implies entry_matches_record(
                        #[trigger] idx@[q].entries@[e],
                        rs2[e],
                    ) by {
                        if e < rs.len() {
                            assert(idx@[q].entries@[e] == oldidx[q].entries@[e]);
                            assert(rs2[e] == rs[e]);
                        } else {
                            assert(idx@[q].entries@[e] == entry);
                            assert(rs2[e] == *r);
                        }
                    }
                }
            }
            assert forall|q: int| 0 <= q < idx@.len() implies records_for_key(
                new_records,
                (#[trigger] idx@[q]).name@,
            ).len() > 0 by {
                if q != pos {
                    assert(records_for_key(new_records, idx@[q].name@) == records_for_key(
                        records,
                        idx@[q].name@,
                    ));
                } else {
                    assert(records_for_key(new_records, k) == records_for_key(records, k).push(*r));
                }
            }
            assert forall|j: int|
                0 <= j < new_records.len() && !(#[trigger] new_records[j]).is_dir implies index_has_key(
                idx@,
                stem_of(new_records[j].file_name@),
            ) by {
                if j < records.len() {
                    assert(new_records[j] == records[j]);
                    assert(index_has_key(oldidx, stem_of(records[j].file_name@)));
                    let w = choose|w: int|
                        0 <= w < oldidx.len() && (#[trigger] oldidx[w]).name@ == stem_of(
                            records[j].file_name@,
                        );
                    assert(idx@[w].name@ == stem_of(new_records[j].file_name@));
                } else {
                    assert(new_records[j] == *r);
                    assert(idx@[pos as int].name@ == k);
                }
            }
            assert(index_matches_records(idx@, new_records));
        }
    } else {
        proof {
            lemma_no_other_key(oldidx, pos as int, k);
            // k has no records yet: a record of it would have put k in the index
            assert forall|j: int| 0 <= j < records.len() implies !key_pred(k)(
                #[trigger] records[j],
            ) by {
                if !records[j].is_dir && stem_of(records[j].file_name@) == k {
                    assert(index_has_key(oldidx, k));
                }
            }
            records.lemma_all_neg_filter_empty(key_pred(k));
            assert(records_for_key(records, k).len() == 0);
        }
        let mut entries: Vec<FileEntry> = Vec::new();
        entries.push(entry);
        idx.insert(pos, IndexGroup { name: stem, entries });
        proof {
            assert(idx@.len() == oldidx.len() + 1);
            assert forall|q: int| 0 <= q < idx@.len() && q != pos implies idx@[q] == (if q < pos {
                oldidx[q]
            } else {
                oldidx[q - 1]
            }) by {}
            assert(idx@[pos as int].name@ == k);
            assert(idx@[pos as int].entries@ =~= seq![entry]);
            assert forall|q1: int, q2: int| 0 <= q1 < q2 < idx@.len() implies lex_lt(
                #[trigger] idx@[q1].name@,
                #[trigger] idx@[q2].name@,
            ) by {
                if q1 == pos {
                    // k goes before everything from pos on
                    assert(lex_lt(k, oldidx[pos as int].name@));
                    if q2 > pos + 1 {
                        lemma_lex_trans(k, oldidx[pos as int].name@, oldidx[q2 - 1].name@);
                    }
                } else if q2 == pos {
                    assert(lex_lt(oldidx[q1].name@, k));
                } else if q1 < pos && q2 > pos {
                    assert(lex_lt(oldidx[q1].name@, oldidx[q2 - 1].name@));
                }
            }
            assert(index_sorted(idx@));
            assert forall|q: int| 0 <= q < idx@.len() implies group_matches(
                #[trigger] idx@[q],
                new_records,
            ) by {
                if q != pos {
                    let go = if q < pos {
                        oldidx[q]
                    } else {
                        oldidx[q - 1]
                    };
                    assert(group_matches(go, records));
                    assert(idx@[q].name@ != k);
                    assert(records_for_key(new_records, idx@[q].name@) == records_for_key(
                        records,
                        idx@[q].name@,
                    ));
                } else {
                    let rs2 = records_for_key(new_records, k);
                    assert(rs2 == records_for_key(records, k).push(*r));
                    assert(rs2 =~= seq![*r]);
                    assert(entry_matches_record(idx@[q].entries@[0], rs2[0]));
                }
            }
            assert forall|q: int| 0 <= q < idx@.len() implies records_for_key(
                new_records,
                (#[trigger] idx@[q]).name@,
            ).len() > 0 by {
                if q != pos {
                    assert(records_for_key(new_records, idx@[q].name@) == records_for_key(
                        records,
                        idx@[q].name@,
                    ));
                    let go = if q < pos {
                        oldidx[q]
                    } else {
                        oldidx[q - 1]
                    };
                    assert(records_for_key(records, go.name@).len() > 0);
                } else {
                    assert(records_for_key(new_records, k) =~= seq![*r]);
                }
            }
            assert forall|j: int|
                0 <= j < new_records.len() && !(#[trigger] new_records[j]).is_dir implies index_has_key(
                idx@,
                stem_of(new_records[j].file_name@),
            ) by {
                if j < records.len() {
                    assert(new_records[j] == records[j]);
                    let w = choose|w: int|
                        0 <= w < oldidx.len() && (#[trigger] oldidx[w]).name@ == stem_of(
                            records[j].file_name@,
                        );
                    let w2 = if w < pos {
                        w
                    } else {
                        w + 1
                    };
                    assert(idx@[w2].name@ == stem_of(new_records[j].file_name@));
                } else {
                    assert(new_records[j] == *r);
                    assert(idx@[pos as int].name@ == k);
                }
            }
            assert(index_matches_records(idx@, new_records));
        }
    }
}

/// Builds the index of a traversal: the records of regular files, grouped by
/// the stem of their file name — the name up to its last `'.'` — with the
/// rest of the name as the extension and the record's parent directory as the
/// entry's path.  Keys come out strictly sorted; each group keeps traversal
/// order; directories are skipped.
pub fn build_index_from_records(records: &Vec<RawEntry>) -> (idx: Vec<IndexGroup>)
    ensures
        index_matches_records(idx@, records@),
        index_wf(idx@),
{
    let mut idx: Vec<IndexGroup> = Vec::new();
    let n: usize = records.len();
    proof {
        assert(records@.take(0) =~= Seq::<RawEntry>::empty());
        assert(index_matches_records(idx@, records@.take(0)));
    }
    let mut j: usize = 0;
    while j < n
        invariant
            j <= n,
            n == records@.len(),
            index_matches_records(idx@, records@.take(j as int)),
        decreases n - j,
    {
        let r = &records[j];
        let ghost tk = records@.take(j as int);
        let ghost rr = records@[j as int];
        if !r.is_dir {
            let (stem, ext) = split_name(r.file_name.as_str());
            let name = stem.clone();
            let path = r.parent.clone();
            let entry = FileEntry::new(path, name, ext);
            proof {
                assert(entry_matches_record(entry, rr));
            }
            push_record_entry(&mut idx, Ghost(tk), r, stem, entry);
        } else {
            proof {
                lemma_records_for_key_push(tk, rr);
                assert forall|q: int| 0 <= q < idx@.len() implies group_matches(
                    #[trigger] idx@[q],
                    tk.push(rr),
                ) by {
                    assert(group_matches(idx@[q], tk));
                    assert(records_for_key(tk.push(rr), idx@[q].name@) == records_for_key(
                        tk,
                        idx@[q].name@,
                    ));
                }
                assert forall|q: int| 0 <= q < idx@.len() implies records_for_key(
                    tk.push(rr),
                    (#[trigger] idx@[q]).name@,
                ).len() > 0 by {
                    assert(records_for_key(tk.push(rr), idx@[q].name@) == records_for_key(
                        tk,
                        idx@[q].name@,
                    ));
                }
                assert forall|j2: int|
                    0 <= j2 < tk.push(rr).len() && !(#[trigger] tk.push(rr)[j2]).is_dir implies index_has_key(
                    idx@,
                    stem_of(tk.push(rr)[j2].file_name@),
                ) by {
                    if j2 < tk.len() {
                        assert(tk.push(rr)[j2] == tk[j2]);
                    } else {
                        assert(tk.push(rr)[j2] == rr);
                    }
                }
                assert(index_matches_records(idx@, tk.push(rr)));
            }
        }
        proof {
            assert(tk.push(rr) =~= records@.take(j + 1));
        }
        j = j + 1;
    }
    proof {
        assert(records@.take(n as int) =~= records@);
        lemma_index_matches_implies_wf(idx@, records@);
    }
    idx
}

/// Walks the tree under `path` to `max_depth` levels below it and indexes
/// the files the walk reports.  What is on disk decides the records; the
/// index is the exact grouping of some record sequence that respects the
/// depth bound.
pub fn generate_entries_map(path: &str, max_depth: usize) -> (idx: Vec<IndexGroup>)
    ensures
        index_wf(idx@),
        exists|records: Seq<RawEntry>|
            records_bounded(records, max_depth as int) && #[trigger] index_matches_records(
                idx@,
                records,
            ),
{
    let records = walk_dir(path, max_depth);
    let idx = build_index_from_records(&records);
    proof {
        assert(records_bounded(records@, max_depth as int) && index_matches_records(
            idx@,
            records@,
        ));
    }
    idx
}

/// The names of the index's groups, in their sorted order.
pub open spec fn index_names(idx: Seq<IndexGroup>) -> Seq<String> {
    idx.map_values(|g: IndexGroup| g.name)
}

/// Collects the keys of the index, in their sorted order.
pub fn index_keys(idx: &Vec<IndexGroup>) -> (keys: Vec<String>)
    ensures
        keys@ == index_names(idx@),
{
    let mut keys: Vec<String> = Vec::new();
    let n: usize = idx.len();
    proof {
        assert(keys@ =~= index_names(idx@).take(0));
    }
    let mut i: usize = 0;
    while i < n
        invariant
            i <= n,
            n == idx@.len(),
            keys@ == index_names(idx@).take(i as int),
        decreases n - i,
    {
        let g = &idx[i];
        keys.push(g.name.clone());
        proof {
            assert(index_names(idx@).take(i + 1) =~= index_names(idx@).take(i as int).push(
                idx@[i as int].name,
            ));
        }
        i = i + 1;
    }
    proof {
        assert(index_names(idx@).take(n as int) =~= index_names(idx@));
    }
    keys
}

/// The entries under key `k`: those of the first group so named, or nothing
/// when no group is.
pub open spec fn index_entries_of(idx: Seq<IndexGroup>, k: Seq<char>) -> Seq<FileEntry>
    decreases idx.len(),
{
    if idx.len() == 0 {
        Seq::empty()
    } else if idx[0].name@ == k {
        idx[0].entries@
    } else {
        index_entries_of(idx.skip(1), k)
    }
}

/// Finds the position of the group keyed `key`, if the index has one; a key
/// the index lacks has no entries.
pub fn index_lookup(idx: &Vec<IndexGroup>, key: &str) -> (r: Option<usize>)
    ensures
        match r {
            Some(p) => p < idx@.len() && idx@[p as int].name@ == key@ && index_has_key(idx@, key@)
                && idx@[p as int].entries@ == index_entries_of(idx@, key@),
            None => !index_has_key(idx@, key@) && index_entries_of(idx@, key@)
                == Seq::<FileEntry>::empty(),
        },
{
    let n: usize = idx.len();
    let mut i: usize = 0;
    proof {
        assert(idx@.skip(0) =~= idx@);
    }
    while i < n
        invariant
            i <= n,
            n == idx@.len(),
            forall|q: int| 0 <= q < i ==> (#[trigger] idx@[q]).name@ != key@,
            index_entries_of(idx@, key@) == index_entries_of(idx@.skip(i as int), key@),
        decreases n - i,
    {
        let g = &idx[i];
        if str_eq(g.name.as_str(), key) {
            proof {
                assert(idx@.skip(i as int)[0] == idx@[i as int]);
                assert(index_entries_of(idx@.skip(i as int), key@) == idx@[i as int].entries@);
            }
            return Some(i);
        }
        proof {
            assert(idx@.skip(i as int)[0] == idx@[i as int]);
            assert(idx@.skip(i as int).skip(1) =~= idx@.skip(i + 1));
        }
        i = i + 1;
    }
    proof {
        assert(idx@.skip(n as int).len() == 0);
        if index_has_key(idx@, key@) {
            let w = choose|w: int| 0 <= w < idx@.len() && (#[trigger] idx@[w]).name@ == key@;
            assert(false);
        }
    }
    None
}

/// The entries of `keys` flattened through the index, in key order.
pub open spec fn flatten_keys(idx: Seq<IndexGroup>, keys: Seq<String>) -> Seq<FileEntry>
    decreases keys.len(),
{
    if keys.len() == 0 {
        Seq::empty()
    } else {
        index_entries_of(idx, keys[0]@) + flatten_keys(idx, keys.skip(1))
    }
}

/// Flattening one more key appends that key's entries.
pub proof fn lemma_flatten_push(idx: Seq<IndexGroup>, keys: Seq<String>, k: String)
    ensures
        flatten_keys(idx, keys.push(k)) == flatten_keys(idx, keys) + index_entries_of(idx, k@),
    decreases keys.len(),
{
    let lhs = flatten_keys(idx, keys.push(k));
    if keys.len() == 0 {
        assert(keys.push(k)[0] == k);
        let tail = keys.push(k).skip(1);
        assert(tail =~= Seq::<String>::empty());
        assert(flatten_keys(idx, tail) == Seq::<FileEntry>::empty());
        assert(lhs == index_entries_of(idx, k@) + Seq::<FileEntry>::empty());
        assert(flatten_keys(idx, keys) == Seq::<FileEntry>::empty());
        assert(lhs =~= flatten_keys(idx, keys) + index_entries_of(idx, k@));
    } else {
        assert(keys.push(k)[0] == keys[0]);
        assert(keys.push(k).skip(1) =~= keys.skip(1).push(k));
        lemma_flatten_push(idx, keys.skip(1), k);
        assert(flatten_keys(idx, keys.push(k).skip(1)) == flatten_keys(idx, keys.skip(1))
            + index_entries_of(idx, k@));
        assert(lhs == index_entries_of(idx, keys[0]@) + (flatten_keys(idx, keys.skip(1))
            + index_entries_of(idx, k@)));
        assert(flatten_keys(idx, keys) == index_entries_of(idx, keys[0]@) + flatten_keys(
            idx,
            keys.skip(1),
        ));
        assert(lhs =~= flatten_keys(idx, keys) + index_entries_of(idx, k@));
    }
}

/// Appends copies of `src`'s entries to `out`.
pub fn append_entries(out: &mut Vec<FileEntry>, src: &Vec<FileEntry>)
    ensures
        final(out)@ == old(out)@ + src@,
{
    let n: usize = src.len();
    proof {
        assert(out@ =~= old(out)@ + src@.take(0));
    }
    let mut i: usize = 0;
    while i < n
        invariant
            i <= n,
            n == src@.len(),
            out@ == old(out)@ + src@.take(i as int),
        decreases n - i,
    {
        let e = &src[i];
        let copy = FileEntry::new(e.path.clone(), e.name.clone(), e.extension.clone());
        proof {
            assert(copy == src@[i as int]);
        }
        out.push(copy);
        proof {
            assert(old(out)@ + src@.take(i + 1) =~= (old(out)@ + src@.take(i as int)).push(
                src@[i as int],
            ));
        }
        i = i + 1;
    }
    proof {
        assert(src@.take(n as int) =~= src@);
    }
}

} // verus!
