//! The files of a strm output directory: the index file that lists the
//! files a run wrote, and the files that a run leaves behind for removal.
use vstd::prelude::*;

verus! {

/// The texts of a list of strings.
pub open spec fn texts(v: Seq<String>) -> Seq<Seq<char>> {
    v.map_values(|s: String| s@)
}

/// The entries of `cands` that are not in `keep`, in their order.
pub open spec fn not_kept(cands: Seq<Seq<char>>, keep: Seq<Seq<char>>) -> Seq<Seq<char>>
    decreases cands.len(),
{
    if cands.len() == 0 {
        Seq::empty()
    } else {
        let rest = not_kept(cands.drop_last(), keep);
        if keep.contains(cands.last()) {
            rest
        } else {
            rest.push(cands.last())
        }
    }
}

/// Whether `v` holds a string with the text of `s`.
fn contains_text(v: &Vec<String>, s: &String) -> (r: bool)
    ensures
        r == texts(v@).contains(s@),
{
    let mut i: usize = 0;
    while i < v.len()
        invariant
            i <= v@.len(),
            forall|k: int| 0 <= k < i ==> v@[k]@ != s@,
        decreases v@.len() - i,
    {
        if v[i] == *s {
            proof {
                assert(texts(v@)[i as int] == s@);
            }
            return true;
        }
        i = i + 1;
    }
    proof {
        if texts(v@).contains(s@) {
            let k = choose|k: int| 0 <= k < texts(v@).len() && texts(v@)[k] == s@;
            assert(v@[k]@ == s@);
        }
    }
    false
}

/// The files to remove after a run that wrote `processed`: with `cleanup`,
/// every file `found` in the directory that the run did not write; without,
/// every file of the `existing` index that the run did not write. The
/// lists are sets of file names: no name occurs twice in one, nor in the
/// result.
pub fn strm_files_to_remove(
    cleanup: bool,
    existing: &Vec<String>,
    found: &Vec<String>,
    processed: &Vec<String>,
) -> (r: Vec<String>)
    requires
        texts(existing@).no_duplicates(),
        texts(found@).no_duplicates(),
    ensures
        texts(r@).no_duplicates(),
        texts(r@) == not_kept(
            texts(
                if cleanup {
                    found@
                } else {
                    existing@
                },
            ),
            texts(processed@),
        ),
{
    let cands = if cleanup {
        found
    } else {
        existing
    };
    let mut out: Vec<String> = Vec::new();
    let mut i: usize = 0;
    proof {
        assert(texts(cands@).take(0) =~= Seq::<Seq<char>>::empty());
    }
    while i < cands.len()
        invariant
            i <= cands@.len(),
            texts(out@) == not_kept(texts(cands@).take(i as int), texts(processed@)),
        decreases cands@.len() - i,
    {
        let ghost before = out@;
        let c = &cands[i];
        proof {
            assert(texts(cands@).take(i + 1).drop_last() =~= texts(cands@).take(i as int));
            assert(texts(cands@).take(i + 1).last() == c@);
        }
        if !contains_text(processed, c) {
            out.push(c.clone());
            proof {
                assert(texts(out@) =~= texts(before).push(c@));
            }
        }
        i = i + 1;
    }
    proof {
        assert(texts(cands@).take(cands@.len() as int) =~= texts(cands@));
        lemma_not_kept_distinct(texts(cands@), texts(processed@));
    }
    out
}

/// Of a list in which nothing occurs twice, the entries not kept are too.
pub proof fn lemma_not_kept_distinct(cands: Seq<Seq<char>>, keep: Seq<Seq<char>>)
    requires
        cands.no_duplicates(),
    ensures
        not_kept(cands, keep).no_duplicates(),
    decreases cands.len(),
{
    if cands.len() > 0 {
        let init = cands.drop_last();
        assert forall|a: int, b: int| 0 <= a < b < init.len() implies init[a] != init[b] by {
            assert(init[a] == cands[a] && init[b] == cands[b]);
        }
        lemma_not_kept_distinct(init, keep);
        let rest = not_kept(init, keep);
        if !keep.contains(cands.last()) {
            lemma_removed_iff_not_written(init, keep, cands.last());
            if init.contains(cands.last()) {
                let k = choose|k: int| 0 <= k < init.len() && init[k] == cands.last();
                assert(cands[k] == cands[cands.len() - 1]);
            }
            let r = rest.push(cands.last());
            assert forall|a: int, b: int| 0 <= a < b < r.len() implies r[a] != r[b] by {
                if b == rest.len() {
                    assert(rest[a] == r[a]);
                    if r[a] == r[b] {
                        assert(rest.contains(cands.last()));
                    }
                } else {
                    assert(rest[a] == r[a] && rest[b] == r[b]);
                }
            }
        }
    }
}

/// The text of an index file: each entry on a line of its own, each line
/// ended by a newline.
pub open spec fn index_text(entries: Seq<Seq<char>>) -> Seq<char>
    decreases entries.len(),
{
    if entries.len() == 0 {
        Seq::empty()
    } else {
        index_text(entries.drop_last()) + entries.last() + seq!['\n']
    }
}

/// The text of the index file that lists `entries`.
pub fn strm_index_text(entries: &Vec<String>) -> (r: String)
    ensures
        r@ == index_text(texts(entries@)),
{
    let mut out = String::new();
    let mut i: usize = 0;
    proof {
        assert(texts(entries@).take(0) =~= Seq::<Seq<char>>::empty());
    }
    while i < entries.len()
        invariant
            i <= entries@.len(),
            out@ == index_text(texts(entries@).take(i as int)),
        decreases entries@.len() - i,
    {
        out.push_str(entries[i].as_str());
        let newline = "\n";
        proof {
            reveal_strlit("\n");
            assert(texts(entries@).take(i + 1).drop_last() =~= texts(entries@).take(i as int));
            assert(texts(entries@).take(i + 1).last() == entries@[i as int]@);
        }
        out.push_str(newline);
        i = i + 1;
    }
    proof {
        assert(texts(entries@).take(entries@.len() as int) =~= texts(entries@));
    }
    out
}

/// A file is removed exactly when it is a candidate and the run did not
/// write it: what a run wrote always stays.
pub proof fn lemma_removed_iff_not_written(cands: Seq<Seq<char>>, keep: Seq<Seq<char>>, x: Seq<char>)
    ensures
        not_kept(cands, keep).contains(x) <==> (cands.contains(x) && !keep.contains(x)),
    decreases cands.len(),
{
    if cands.len() > 0 {
        let init = cands.drop_last();
        lemma_removed_iff_not_written(init, keep, x);
        let rest = not_kept(init, keep);
        let r = not_kept(cands, keep);
        assert(cands =~= init.push(cands.last()));
        if init.contains(x) {
            let k = choose|k: int| 0 <= k < init.len() && init[k] == x;
            assert(cands[k] == x);
        }
        if cands.contains(x) && x != cands.last() {
            let k = choose|k: int| 0 <= k < cands.len() && cands[k] == x;
            assert(k < init.len());
            assert(init[k] == x);
        }
        if !keep.contains(cands.last()) {
            assert(r == rest.push(cands.last()));
            if rest.contains(x) {
                let k = choose|k: int| 0 <= k < rest.len() && rest[k] == x;
                assert(r[k] == x);
            }
            if x == cands.last() {
                assert(r[rest.len() as int] == x);
            }
            if r.contains(x) && x != cands.last() {
                let k = choose|k: int| 0 <= k < r.len() && r[k] == x;
                assert(k < rest.len());
                assert(rest[k] == x);
            }
        }
    }
}

} // verus!
