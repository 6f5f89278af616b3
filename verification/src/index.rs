//! The staging index: a line-oriented ledger, one `"<digest> <path>\n"`
//! record per line. Lines without a space are silently skipped; a missing
//! index is an empty one. When a path has been staged more than once, the
//! last line for it wins.

use vstd::prelude::*;

use crate::bytes::{bytes_eq, find_byte, first_at, lemma_first_at, lemma_first_at_is, subvec,
    copy_bytes, append_bytes};

verus! {

/// One index record: the digest last staged for a repository-relative path.
pub struct IndexEntry {
    pub digest: Vec<u8>,
    pub path: Vec<u8>,
}

/// The mathematical content of an `IndexEntry`.
#[verifier::ext_equal]
pub ghost struct EntryView {
    pub digest: Seq<u8>,
    pub path: Seq<u8>,
}

impl View for IndexEntry {
    type V = EntryView;

    open spec fn view(&self) -> EntryView {
        EntryView { digest: self.digest@, path: self.path@ }
    }
}

/// The views of a sequence of entries.
pub open spec fn entry_views(v: Seq<IndexEntry>) -> Seq<EntryView> {
    v.map_values(|e: IndexEntry| e@)
}

/// Parses one index line: the bytes before the first space are the digest,
/// those after it the path. A line without a space is no record.
pub open spec fn spec_parse_line(line: Seq<u8>) -> Option<EntryView> {
    match first_at(line, 32u8) {
        None => None,
        Some(p) => Some(
            EntryView { digest: line.subrange(0, p), path: line.subrange(p + 1, line.len() as int) },
        ),
    }
}

/// Parses a whole index file: split on newlines, parse each line, skip
/// malformed lines.
pub open spec fn spec_index_entries(d: Seq<u8>) -> Seq<EntryView>
    decreases d.len(),
    via spec_index_entries_decreases
{
    if d.len() == 0 {
        seq![]
    } else {
        let line_end = match first_at(d, 10u8) {
            Some(p) => p,
            None => d.len() as int,
        };
        let line = d.subrange(0, line_end);
        let rest = if line_end == d.len() as int {
            Seq::<u8>::empty()
        } else {
            d.subrange(line_end + 1, d.len() as int)
        };
        match spec_parse_line(line) {
            Some(e) => seq![e] + spec_index_entries(rest),
            None => spec_index_entries(rest),
        }
    }
}

#[via_fn]
proof fn spec_index_entries_decreases(d: Seq<u8>) {
    if d.len() > 0 {
        lemma_first_at(d, 10u8);
    }
}

/// Parses the raw bytes of an index file into its records.
pub fn parse_index(data: &Vec<u8>) -> (r: Vec<IndexEntry>)
    ensures
        entry_views(r@) == spec_index_entries(data@),
{
    let n = data.len();
    let mut out: Vec<IndexEntry> = Vec::new();
    let mut i: usize = 0;
    proof {
        assert(data@.subrange(0, n as int) =~= data@);
        assert(entry_views(out@) + spec_index_entries(data@) =~= spec_index_entries(data@));
    }
    while i < n
        invariant
            i <= n == data@.len(),
            spec_index_entries(data@) == entry_views(out@) + spec_index_entries(
                data@.subrange(i as int, n as int),
            ),
        decreases n - i,
    {
        let ghost suffix = data@.subrange(i as int, n as int);
        let mut j: usize = i;
        while j < n && data[j] != 10
            invariant
                i <= j <= n == data@.len(),
                forall|k: int| i <= k < j ==> data@[k] != 10,
            decreases n - j,
        {
            j = j + 1;
        }
        proof {
            assert(forall|k: int| 0 <= k < j - i ==> suffix[k] != 10);
            if j < n {
                lemma_first_at_is(suffix, 10u8, j - i);
            } else {
                lemma_first_at(suffix, 10u8);
                assert(first_at(suffix, 10u8) is None) by {
                    match first_at(suffix, 10u8) {
                        Some(p) => {
                            assert(suffix[p] != 10);
                        },
                        None => {},
                    }
                }
            }
        }
        let line = subvec(data, i, j);
        proof {
            assert(line@ =~= suffix.subrange(0, j - i));
        }
        let ghost out_before = out@;
        match find_byte(&line, 32) {
            Some(p) => {
                proof {
                    lemma_first_at(line@, 32u8);
                }
                let ll = line.len();
                let e = IndexEntry {
                    digest: subvec(&line, 0, p),
                    path: subvec(&line, p + 1, ll),
                };
                proof {
                    assert(spec_parse_line(line@) == Some(e@));
                }
                out.push(e);
                proof {
                    assert(entry_views(out@) =~= entry_views(out_before).push(e@));
                }
            },
            None => {
                proof {
                    assert(spec_parse_line(line@) is None);
                }
            },
        }
        proof {
            let rest = if j < n {
                data@.subrange(j + 1, n as int)
            } else {
                Seq::<u8>::empty()
            };
            if j < n {
                assert(rest =~= suffix.subrange(j - i + 1, suffix.len() as int));
            } else {
                assert(data@.subrange(n as int, n as int) =~= Seq::<u8>::empty());
            }
            match spec_parse_line(line@) {
                Some(e) => {
                    assert(spec_index_entries(suffix) =~= seq![e] + spec_index_entries(rest));
                    assert(entry_views(out@) =~= entry_views(out_before) + seq![e]);
                    assert(entry_views(out@) + spec_index_entries(rest) =~= entry_views(out_before)
                        + spec_index_entries(suffix));
                },
                None => {
                    assert(spec_index_entries(suffix) == spec_index_entries(rest));
                },
            }
        }
        i = if j < n {
            j + 1
        } else {
            j
        };
    }
    proof {
        assert(data@.subrange(n as int, n as int) =~= Seq::<u8>::empty());
        assert(entry_views(out@) =~= spec_index_entries(data@));
    }
    out
}

/// The bytes `append` adds to the index for one record:
/// `"<digest> <path>\n"`.
pub open spec fn spec_index_line(digest: Seq<u8>, path: Seq<u8>) -> Seq<u8> {
    digest + seq![32u8] + path + seq![10u8]
}

/// Renders one index record as its line.
pub fn index_line(digest: &Vec<u8>, path: &Vec<u8>) -> (r: Vec<u8>)
    ensures
        r@ == spec_index_line(digest@, path@),
{
    let mut r = copy_bytes(digest);
    r.push(32);
    append_bytes(&mut r, path);
    r.push(10);
    proof {
        assert(r@ =~= spec_index_line(digest@, path@));
    }
    r
}

/// Index consistency: appending one record to a line-terminated index adds
/// exactly that record to the parsed entries, and the appended digest is
/// what lookup then returns for the path. The digest may hold neither space
/// nor newline (hexadecimal digests hold neither) and the path no newline.
pub proof fn lemma_index_append(d: Seq<u8>, dg: Seq<u8>, p: Seq<u8>)
    requires
        d.len() == 0 || d.last() == 10,
        forall|i: int| 0 <= i < dg.len() ==> dg[i] != 32 && dg[i] != 10,
        forall|i: int| 0 <= i < p.len() ==> p[i] != 10,
    ensures
        spec_index_entries(d + spec_index_line(dg, p)) == spec_index_entries(d) + seq![
            EntryView { digest: dg, path: p },
        ],
        spec_index_digest_of(spec_index_entries(d + spec_index_line(dg, p)), p) == Some(dg),
    decreases d.len(),
{
    let line = spec_index_line(dg, p);
    let total = d + line;
    let e = EntryView { digest: dg, path: p };
    if d.len() == 0 {
        assert(total =~= line);
        let q = dg.len() + 1 + p.len() as int;
        assert(line[q] == 10);
        assert(forall|j: int| 0 <= j < dg.len() ==> line[j] == dg[j]);
        assert(line[dg.len() as int] == 32);
        assert(forall|j: int| dg.len() + 1 <= j < q ==> line[j] == p[j - dg.len() - 1]);
        lemma_first_at_is(line, 10u8, q);
        let l0 = line.subrange(0, q);
        assert(l0[dg.len() as int] == 32);
        lemma_first_at_is(l0, 32u8, dg.len() as int);
        assert(l0.subrange(0, dg.len() as int) =~= dg);
        assert(l0.subrange(dg.len() + 1 as int, q) =~= p);
        assert(spec_parse_line(l0) == Some(e));
        assert(line.subrange(q + 1, line.len() as int) =~= Seq::<u8>::empty());
        reveal_with_fuel(spec_index_entries, 2);
        assert(spec_index_entries(total) =~= seq![e]);
        assert(spec_index_entries(d) + seq![e] =~= seq![e]);
    } else {
        lemma_first_at(d, 10u8);
        let q = match first_at(d, 10u8) {
            Some(q) => q,
            None => 0int,
        };
        assert(first_at(d, 10u8) == Some(q)) by {
            if first_at(d, 10u8) is None {
                assert(d[d.len() - 1] != 10);
            }
        }
        assert(total[q] == d[q]);
        assert(forall|j: int| 0 <= j < q ==> total[j] == d[j]);
        lemma_first_at_is(total, 10u8, q);
        assert(total.subrange(0, q) =~= d.subrange(0, q));
        let dr = d.subrange(q + 1, d.len() as int);
        assert(total.subrange(q + 1, total.len() as int) =~= dr + line);
        if dr.len() > 0 {
            assert(dr.last() == d.last());
        }
        lemma_index_append(dr, dg, p);
        let l0 = d.subrange(0, q);
        match spec_parse_line(l0) {
            Some(e0) => {
                assert(spec_index_entries(total) =~= seq![e0] + (spec_index_entries(dr) + seq![e]));
                assert(spec_index_entries(d) =~= seq![e0] + spec_index_entries(dr));
                assert(spec_index_entries(total) =~= spec_index_entries(d) + seq![e]);
            },
            None => {
                assert(spec_index_entries(total) == spec_index_entries(dr + line));
                assert(spec_index_entries(d) == spec_index_entries(dr));
            },
        }
    }
    let parsed = spec_index_entries(total);
    assert(parsed.last() == e);
    assert(spec_index_digest_of(parsed, p) == Some(dg));
}

/// The digest recorded for `path`: the last record for it wins.
pub open spec fn spec_index_digest_of(entries: Seq<EntryView>, path: Seq<u8>) -> Option<Seq<u8>>
    decreases entries.len(),
{
    if entries.len() == 0 {
        None
    } else if entries.last().path == path {
        Some(entries.last().digest)
    } else {
        spec_index_digest_of(entries.drop_last(), path)
    }
}

/// A path has a recorded digest exactly when some entry carries it.
pub proof fn lemma_index_digest_exists(entries: Seq<EntryView>, path: Seq<u8>)
    ensures
        (spec_index_digest_of(entries, path) is Some) <==> (exists|k: int|
            0 <= k < entries.len() && entries[k].path == path),
    decreases entries.len(),
{
    if entries.len() > 0 {
        lemma_index_digest_exists(entries.drop_last(), path);
        if entries.last().path == path {
            assert(entries[entries.len() - 1].path == path);
        } else if exists|k: int| 0 <= k < entries.len() && entries[k].path == path {
            let k = choose|k: int| 0 <= k < entries.len() && entries[k].path == path;
            assert(entries.drop_last()[k] == entries[k]);
        }
    }
}

/// Looks up the digest last staged for `path`.
pub fn index_digest_of(entries: &Vec<IndexEntry>, path: &Vec<u8>) -> (r: Option<Vec<u8>>)
    ensures
        match r {
            Some(d) => spec_index_digest_of(entry_views(entries@), path@) == Some(d@),
            None => spec_index_digest_of(entry_views(entries@), path@) is None,
        },
{
    let mut i: usize = entries.len();
    proof {
        assert(entry_views(entries@).take(i as int) =~= entry_views(entries@));
    }
    while i > 0
        invariant
            i <= entries@.len(),
            spec_index_digest_of(entry_views(entries@), path@) == spec_index_digest_of(
                entry_views(entries@).take(i as int),
                path@,
            ),
        decreases i,
    {
        i = i - 1;
        let ghost prefix = entry_views(entries@).take(i + 1);
        proof {
            assert(prefix.last() == entries@[i as int]@);
            assert(prefix.drop_last() =~= entry_views(entries@).take(i as int));
        }
        if bytes_eq(&entries[i].path, path) {
            return Some(copy_bytes(&entries[i].digest));
        }
    }
    proof {
        assert(entry_views(entries@).take(0) =~= Seq::<EntryView>::empty());
    }
    None
}

} // verus!
