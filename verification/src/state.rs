//! The session's single source of truth.
//!
//! One [`ResApp`] per running session holds the configuration — root path,
//! depth bound, search pattern — and owns the derived state: the index, the
//! sorted key list and the filtered key list.  Rebuilding the index and
//! re-filtering the keys happen only on the two transitions that change the
//! configuration, never on a read: a presentation layer may call
//! [`ResApp::visible_entries`] as often as it likes without touching the
//! disk or the pattern matcher.

use vstd::prelude::*;

use crate::filtering::{filter_keys, filter_spec};
use crate::index::{
    build_index_from_records, flatten_keys, index_keys, index_lookup, index_matches_records,
    index_names, index_wf, lemma_flatten_push, append_entries, FileEntry, IndexGroup,
};
use crate::strings::lex_lt;
use crate::walk::{records_bounded, walk_dir, RawEntry};

verus! {

/// What the filtered key list holds for a pattern: nothing while the
/// pattern is empty — an empty search field shows no filtered selection —
/// and the matching keys otherwise.
pub open spec fn spec_filtered(keys: Seq<String>, pattern: Seq<char>) -> Seq<String> {
    if pattern.len() == 0 {
        Seq::empty()
    } else {
        filter_spec(keys, pattern)
    }
}

/// The key list of a well-formed session is strictly sorted — the index's
/// keys, unique by construction, in lexicographic order.
pub proof fn lemma_keys_sorted(app: ResApp)
    requires
        app.wf(),
    ensures
        forall|i: int, j: int|
            0 <= i < j < app.keys@.len() ==> lex_lt(
                (#[trigger] app.keys@[i])@,
                (#[trigger] app.keys@[j])@,
            ),
{
    assert forall|i: int, j: int| 0 <= i < j < app.keys@.len() implies lex_lt(
        (#[trigger] app.keys@[i])@,
        (#[trigger] app.keys@[j])@,
    ) by {
        assert(app.keys@[i] == app.entries_map@[i].name);
        assert(app.keys@[j] == app.entries_map@[j].name);
    }
}

/// The search session: root path, depth bound and pattern, owning the
/// derived index, sorted key list and filtered key list.
pub struct ResApp {
    pub path: String,
    pub entries_map: Vec<IndexGroup>,
    pub search_string: String,
    pub keys: Vec<String>,
    pub filtered_keys: Vec<String>,
    pub max_depth: usize,
}

impl ResApp {
    /// The derived state is in step with the configuration: the index is
    /// well formed, `keys` are its keys in sorted order, and
    /// `filtered_keys` is what the current pattern leaves of them.
    pub open spec fn wf(self) -> bool {
        &&& index_wf(self.entries_map@)
        &&& self.keys@ == index_names(self.entries_map@)
        &&& self.filtered_keys@ == spec_filtered(self.keys@, self.search_string@)
    }

    /// The keys whose entries are visible: all of them while the pattern is
    /// empty, the filtered ones otherwise.
    pub open spec fn active_keys(self) -> Seq<String> {
        if self.search_string@.len() == 0 {
            self.keys@
        } else {
            self.filtered_keys@
        }
    }

    /// Opens a session: walks `path` to `max_depth` levels, indexes what the
    /// walk reports, and starts with an empty pattern.
    pub fn new(path: String, max_depth: usize) -> (res: ResApp)
        ensures
            res.wf(),
            res.path == path,
            res.max_depth == max_depth,
            res.search_string@ == Seq::<char>::empty(),
            res.filtered_keys@ == Seq::<String>::empty(),
            exists|records: Seq<RawEntry>|
                records_bounded(records, max_depth as int) && #[trigger] index_matches_records(
                    res.entries_map@,
                    records,
                ),
    {
        let mut res = ResApp {
            path: String::new(),
            entries_map: Vec::new(),
            search_string: String::new(),
            keys: Vec::new(),
            filtered_keys: Vec::new(),
            max_depth: 0,
        };
        res.update(path, max_depth);
        res
    }

    /// Rebuilds the index by walking `path` to `max_depth` levels,
    /// refreshes the key list, and re-applies the current pattern to it.
    pub fn update(&mut self, path: String, max_depth: usize)
        ensures
            final(self).wf(),
            final(self).path == path,
            final(self).max_depth == max_depth,
            final(self).search_string == old(self).search_string,
            exists|records: Seq<RawEntry>|
                records_bounded(records, max_depth as int) && #[trigger] index_matches_records(
                    final(self).entries_map@,
                    records,
                ),
    {
        let records = walk_dir(path.as_str(), max_depth);
        self.update_from_records(path, max_depth, &records);
    }

    /// Installs the index of the given traversal records as the index for
    /// `path` and `max_depth`: rebuilds the key list and re-applies the
    /// current pattern to it.  Filtering never touches the disk.
    pub fn update_from_records(&mut self, path: String, max_depth: usize, records: &Vec<RawEntry>)
        ensures
            final(self).wf(),
            final(self).path == path,
            final(self).max_depth == max_depth,
            final(self).search_string == old(self).search_string,
            index_matches_records(final(self).entries_map@, records@),
            final(self).filtered_keys@ == spec_filtered(
                final(self).keys@,
                old(self).search_string@,
            ),
    {
        self.path = path;
        self.max_depth = max_depth;
        self.entries_map = build_index_from_records(records);
        self.keys = index_keys(&self.entries_map);
        if self.search_string.as_str().is_empty() {
            self.filtered_keys = Vec::new();
        } else {
            self.filtered_keys = filter_keys(&self.keys, self.search_string.as_str());
        }
    }

    /// Sets the search pattern and recomputes the filtered keys from the
    /// current key list, without re-walking anything: an empty pattern
    /// clears them, any other pattern keeps the keys it matches.
    pub fn filter_by_name(&mut self, pattern: &str)
        requires
            old(self).wf(),
        ensures
            final(self).wf(),
            final(self).path == old(self).path,
            final(self).max_depth == old(self).max_depth,
            final(self).entries_map == old(self).entries_map,
            final(self).keys == old(self).keys,
            final(self).search_string@ == pattern@,
            final(self).filtered_keys@ == spec_filtered(old(self).keys@, pattern@),
    {
        self.search_string = pattern.to_owned();
        if pattern.is_empty() {
            self.filtered_keys = Vec::new();
        } else {
            self.filtered_keys = filter_keys(&self.keys, pattern);
        }
    }

    /// The entries to display, flattened through the index in key order:
    /// those of every key while the pattern is empty, those of the filtered
    /// keys otherwise.
    pub fn visible_entries(&self) -> (r: Vec<FileEntry>)
        requires
            self.wf(),
        ensures
            r@ == flatten_keys(self.entries_map@, self.active_keys()),
    {
        let keys = if self.search_string.as_str().is_empty() {
            &self.keys
        } else {
            &self.filtered_keys
        };
        let mut out: Vec<FileEntry> = Vec::new();
        let n: usize = keys.len();
        proof {
            assert(keys@.take(0) =~= Seq::<String>::empty());
        }
        let mut i: usize = 0;
        while i < n
            invariant
                i <= n,
                n == keys@.len(),
                out@ == flatten_keys(self.entries_map@, keys@.take(i as int)),
            decreases n - i,
        {
            let key = &keys[i];
            match index_lookup(&self.entries_map, key.as_str()) {
                Some(p) => {
                    let g = &self.entries_map[p];
                    append_entries(&mut out, &g.entries);
                },
                None => {
                },
            }
            proof {
                lemma_flatten_push(self.entries_map@, keys@.take(i as int), keys@[i as int]);
                assert(keys@.take(i + 1) =~= keys@.take(i as int).push(keys@[i as int]));
            }
            i = i + 1;
        }
        proof {
            assert(keys@.take(n as int) =~= keys@);
        }
        out
    }
}

} // verus!
