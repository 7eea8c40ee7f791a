//! The spine: an ordered list of entry names plus a bounded read cursor.
//!
//! A spine is built once per opened container by probing each entry's
//! content prefix: only entries that classify as image data are kept, and
//! the surviving names are sorted lexicographically, which recovers
//! insertion order for containers written under the zero-padded naming
//! scheme.

use vstd::prelude::*;
use vstd::relations::sorted_by;

use crate::archive::{archive_names, distinct_names, entry_names, entry_prefix, lookup,
    za_entries, za_readable, EntryV};
use crate::codec::{is_image_bytes, sniff_image};
use crate::errors::SpineCreationError;
use crate::order::{lex_leq, sorted_names};

verus! {

/// How many leading bytes of an entry the content probe reads.
pub const PREFIX_LEN: usize = 32;

/// An entry that belongs on the spine: a file whose content prefix
/// classifies as image data.  A file shorter than the probe cannot be
/// classified and fails spine construction instead.
pub open spec fn is_image_entry(e: EntryV) -> bool {
    e.2 && e.1.len() >= PREFIX_LEN && is_image_bytes(e.1.take(PREFIX_LEN as int))
}

/// The names of the image entries, in entry order.
pub open spec fn image_names(es: Seq<EntryV>) -> Seq<Seq<char>> {
    es.filter(|e: EntryV| is_image_entry(e)).map_values(|e: EntryV| e.0)
}

/// A name that resolves to an image entry.
pub open spec fn keeps(es: Seq<EntryV>, name: Seq<char>) -> bool {
    &&& lookup(es, name) matches Some((d, f))
    &&& lookup(es, name).unwrap().1
    &&& lookup(es, name).unwrap().0.len() >= PREFIX_LEN
    &&& is_image_bytes(lookup(es, name).unwrap().0.take(PREFIX_LEN as int))
}

/// Every file entry is at least the probe prefix long, so probing it
/// cannot fail.
pub open spec fn prefixes_readable(es: Seq<EntryV>) -> bool {
    forall|i: int| 0 <= i < es.len() ==> ((#[trigger] es[i]).2 ==> es[i].1.len() >= PREFIX_LEN)
}

/// Under distinct names, a name resolves to its own entry.
pub proof fn lemma_lookup_index(es: Seq<EntryV>, i: int)
    requires
        distinct_names(es),
        0 <= i < es.len(),
    ensures
        lookup(es, es[i].0) == Some((es[i].1, es[i].2)),
    decreases es.len(),
{
    if i == es.len() - 1 {
    } else {
        assert(es.last().0 != es[i].0);
        assert(distinct_names(es.drop_last())) by {
            assert forall|a: int, b: int|
                0 <= a < b < es.drop_last().len() implies es.drop_last()[a].0
                != es.drop_last()[b].0 by {
                assert(es.drop_last()[a] == es[a]);
                assert(es.drop_last()[b] == es[b]);
            }
        }
        lemma_lookup_index(es.drop_last(), i);
        assert(es.drop_last()[i] == es[i]);
    }
}


/// Extending the probed prefix of the entries by one entry extends the
/// image names by that entry's name exactly when it is an image entry.
proof fn lemma_image_names_step(es: Seq<EntryV>, i: int)
    requires
        0 <= i < es.len(),
    ensures
        is_image_entry(es[i]) ==> image_names(es.take(i + 1)) == image_names(es.take(i)).push(
            es[i].0,
        ),
        !is_image_entry(es[i]) ==> image_names(es.take(i + 1)) == image_names(es.take(i)),
{
    reveal(Seq::<EntryV>::filter);
    assert(es.take(i + 1).drop_last() =~= es.take(i));
    assert(es.take(i + 1).last() == es[i]);
    if is_image_entry(es[i]) {
        assert(image_names(es.take(i + 1)) =~= image_names(es.take(i)).push(es[i].0));
    } else {
        assert(image_names(es.take(i + 1)) =~= image_names(es.take(i)));
    }
}

/// One cursor movement: one entry back, one entry forward, or a clamped
/// jump to an arbitrary index.
pub enum NavOp {
    Prev,
    Next,
    Seek(usize),
}

/// Where the cursor lands after one navigation step on a spine of `len`
/// entries, starting from `cur`.  Mirrors `go_to_prev_index`,
/// `go_to_next_index` and `set_current_index`.
pub open spec fn nav_step(len: int, cur: int, op: NavOp) -> int {
    match op {
        NavOp::Prev => if cur == 0 {
            0int
        } else {
            cur - 1
        },
        NavOp::Next => if cur + 1 < len {
            cur + 1
        } else if len == 0 {
            0int
        } else {
            len - 1
        },
        NavOp::Seek(i) => if len == 0 {
            0int
        } else if (i as int) < len {
            i as int
        } else {
            len - 1
        },
    }
}

/// Where the cursor lands after a whole sequence of navigation steps.
pub open spec fn nav_run(len: int, cur: int, ops: Seq<NavOp>) -> int
    decreases ops.len(),
{
    if ops.len() == 0 {
        cur
    } else {
        nav_run(len, nav_step(len, cur, ops[0]), ops.drop_first())
    }
}

/// Cursor navigation never leaves `[0, len - 1]`, whatever sequence of
/// back, forward and seek steps is taken, for any non-empty spine; on an
/// empty spine every step is a no-op and the cursor stays at zero.
pub proof fn lemma_navigation_stays_in_bounds(len: int, cur: int, ops: Seq<NavOp>)
    requires
        len == 0 ==> cur == 0,
        len > 0 ==> 0 <= cur < len,
    ensures
        len == 0 ==> nav_run(len, cur, ops) == 0,
        len > 0 ==> 0 <= nav_run(len, cur, ops) < len,
    decreases ops.len(),
{
    if ops.len() > 0 {
        lemma_navigation_stays_in_bounds(len, nav_step(len, cur, ops[0]), ops.drop_first());
    }
}

/// Ordered entry names of an opened container, with the read cursor.
///
/// When the spine is non-empty the cursor always lies in `[0, len - 1]`;
/// an empty spine keeps the cursor at zero and navigation is a no-op.
pub struct Spine {
    spine: Vec<String>,
    current_index: usize,
}

impl Spine {
    /// The entry names, first page first.
    pub closed spec fn names(self) -> Seq<Seq<char>> {
        self.spine.deep_view()
    }

    /// Build the spine of an opened container: probe each entry's content
    /// prefix, keep the entries that classify as image data, and sort the
    /// surviving names.  Fails only when reading an entry's prefix fails —
    /// on a readable archive that means exactly a file entry shorter than
    /// the probe; an entry whose prefix does not classify as an image is
    /// merely skipped, as is a directory entry.
    pub fn try_new(archive: &mut zip::ZipArchive<std::io::Cursor<Vec<u8>>>) -> (r: Result<
        Spine,
        SpineCreationError,
    >)
        requires
            distinct_names(za_entries(*old(archive))),
        ensures
            za_entries(*final(archive)) == za_entries(*old(archive)),
            za_readable(*final(archive)) == za_readable(*old(archive)),
            za_readable(*old(archive)) && prefixes_readable(za_entries(*old(archive))) ==> r
                is Ok,
            r is Ok ==> prefixes_readable(za_entries(*old(archive))),
            za_readable(*old(archive)) ==> (r matches Err(e) ==> e
                == SpineCreationError::ZipFileRead),
            r matches Ok(s) ==> {
                &&& s.wf()
                &&& s.cursor() == 0
                &&& sorted_by(s.names(), lex_leq())
                &&& s.names().to_multiset() == image_names(
                    za_entries(*old(archive)),
                ).to_multiset()
                &&& forall|k: int|
                    0 <= k < s.names().len() ==> keeps(
                        za_entries(*old(archive)),
                        #[trigger] s.names()[k],
                    )
            },
    {
        broadcast use vstd::seq_lib::group_to_multiset_ensures;

        let ghost es = za_entries(*old(archive));
        let names = archive_names(archive);
        let n = names.len();

        let mut kept: Vec<String> = Vec::new();
        let mut i: usize = 0;
        proof {
            assert(entry_names(es).len() == es.len());
            assert(es.take(0int) =~= Seq::<EntryV>::empty());
            reveal(Seq::<EntryV>::filter);
            assert(image_names(es.take(0int)) =~= Seq::<Seq<char>>::empty());
            assert(kept.deep_view() =~= Seq::<Seq<char>>::empty());
        }

        while i < n
            invariant
                es == za_entries(*old(archive)),
                distinct_names(es),
                za_entries(*archive) == es,
                za_readable(*archive) == za_readable(*old(archive)),
                n == names.deep_view().len(),
                i <= n,
                names.deep_view() == entry_names(es),
                es.len() == n,
                kept.deep_view() == image_names(es.take(i as int)),
                forall|k: int|
                    0 <= k < kept.deep_view().len() ==> keeps(es, #[trigger] kept.deep_view()[k]),
                forall|m: int|
                    0 <= m < i ==> ((#[trigger] es[m]).2 ==> es[m].1.len() >= PREFIX_LEN),
            decreases n - i,
        {
            proof {
                lemma_lookup_index(es, i as int);
                assert(names.deep_view()[i as int] == es[i as int].0);
            }
            let probe = entry_prefix(archive, names[i].as_str(), PREFIX_LEN);
            let ghost e_i = es[i as int];
            match probe {
                Err(err) => {
                    proof {
                        if za_readable(*old(archive)) && prefixes_readable(es) {
                            assert(e_i.2 ==> e_i.1.len() >= PREFIX_LEN);
                            assert(false);
                        }
                        if za_readable(*old(archive)) {
                            assert(err == SpineCreationError::ZipFileRead);
                        }
                    }
                    return Err(err);
                },
                Ok(opt) => {
                    proof {
                        lemma_image_names_step(es, i as int);
                    }
                    match opt {
                        None => {
                            proof {
                                assert(!e_i.2);
                                assert(!is_image_entry(e_i));
                                assert forall|m: int|
                                    0 <= m < i + 1 implies ((#[trigger] es[m]).2 ==> es[m].1.len()
                                    >= PREFIX_LEN) by {}
                            }
                        },
                        Some(p) => {
                            let ghost kept0 = kept.deep_view();
                            if sniff_image(p.as_slice()) {
                                proof {
                                    assert(e_i.2 && e_i.1.len() >= PREFIX_LEN);
                                    assert(p@ == e_i.1.take(PREFIX_LEN as int));
                                    assert(is_image_entry(e_i));
                                }
                                kept.push(names[i].clone());
                                proof {
                                    assert(kept.deep_view() =~= kept0.push(e_i.0));
                                    assert(keeps(es, e_i.0));
                                    assert forall|k: int|
                                        0 <= k < kept.deep_view().len() implies keeps(
                                        es,
                                        #[trigger] kept.deep_view()[k],
                                    ) by {
                                        if k < kept0.len() {
                                            assert(kept.deep_view()[k] == kept0[k]);
                                        }
                                    }
                                }
                            } else {
                                proof {
                                    assert(p@ == e_i.1.take(PREFIX_LEN as int));
                                    assert(!is_image_entry(e_i));
                                }
                            }
                        },
                    }
                },
            }
            i = i + 1;
        }

        proof {
            assert(es.take(n as int) =~= es);
        }

        let sorted = sorted_names(&kept);
        proof {
            assert forall|k: int| 0 <= k < sorted.deep_view().len() implies keeps(
                es,
                #[trigger] sorted.deep_view()[k],
            ) by {
                let x = sorted.deep_view()[k];
                assert(sorted.deep_view().contains(x));
                assert(sorted.deep_view().to_multiset().count(x) > 0);
                assert(kept.deep_view().to_multiset().count(x) > 0);
                assert(kept.deep_view().contains(x));
                let j = choose|j: int|
                    0 <= j < kept.deep_view().len() && kept.deep_view()[j] == x;
                assert(keeps(es, kept.deep_view()[j]));
            }
        }
        Ok(Spine { spine: sorted, current_index: 0 })
    }


    /// The cursor position.
    pub closed spec fn cursor(self) -> int {
        self.current_index as int
    }

    /// The cursor is in bounds whenever the spine is non-empty.
    pub open spec fn wf(self) -> bool {
        if self.names().len() == 0 {
            self.cursor() == 0
        } else {
            0 <= self.cursor() < self.names().len()
        }
    }

    /// A copy of the entry names, for callers that re-stream raw bytes.
    #[must_use]
    pub fn name_list(&self) -> (v: Vec<String>)
        ensures
            v.deep_view() == self.names(),
    {
        broadcast use vstd::std_specs::vec::vec_clone_deep_view_proof;

        self.spine.clone()
    }

    #[must_use]
    pub fn len(&self) -> (n: usize)
        ensures
            n == self.names().len(),
    {
        self.spine.len()
    }

    #[must_use]
    pub fn is_empty(&self) -> (r: bool)
        ensures
            r == (self.names().len() == 0),
    {
        self.spine.len() == 0
    }

    #[must_use]
    pub fn current_index(&self) -> (i: usize)
        ensures
            i == self.cursor(),
    {
        self.current_index
    }

    /// Move the cursor one entry back; at the first entry (or on an empty
    /// spine) this is a no-op.
    pub fn go_to_prev_index(&mut self)
        requires
            old(self).wf(),
        ensures
            final(self).wf(),
            final(self).names() == old(self).names(),
            final(self).cursor() == nav_step(
                old(self).names().len() as int,
                old(self).cursor(),
                NavOp::Prev,
            ),
    {
        if self.current_index == 0 {
            return ;
        }

        let prev = self.current_index - 1;
        self.set_current_index(prev);
    }

    /// Move the cursor one entry forward; at the last entry (or on an empty
    /// spine) this is a no-op.
    pub fn go_to_next_index(&mut self)
        requires
            old(self).wf(),
        ensures
            final(self).wf(),
            final(self).names() == old(self).names(),
            final(self).cursor() == nav_step(
                old(self).names().len() as int,
                old(self).cursor(),
                NavOp::Next,
            ),
    {
        let len = self.spine.len();
        if len == 0 {
            return ;
        }

        if self.current_index + 1 < len {
            self.current_index = self.current_index + 1;
        } else {
            self.current_index = len - 1;
        }
    }

    /// Clamp `index` into `[0, len - 1]` and move the cursor there; on an
    /// empty spine this is a no-op.  Out-of-range input is never an error.
    pub fn set_current_index(&mut self, index: usize)
        requires
            old(self).wf(),
        ensures
            final(self).wf(),
            final(self).names() == old(self).names(),
            final(self).cursor() == nav_step(
                old(self).names().len() as int,
                old(self).cursor(),
                NavOp::Seek(index),
            ),
    {
        let len = self.spine.len();
        if len == 0 {
            return ;
        }

        if index < len {
            self.current_index = index;
        } else {
            self.current_index = len - 1;
        }
    }

    /// The entry name under the cursor, or nothing on an empty spine.
    #[must_use]
    pub fn get_current_file_name(&self) -> (r: Option<&str>)
        requires
            self.wf(),
        ensures
            match r {
                Some(name) => self.names().len() > 0 && name@ == self.names()[self.cursor()],
                None => self.names().len() == 0,
            },
    {
        if self.current_index < self.spine.len() {
            Some(self.spine[self.current_index].as_str())
        } else {
            None
        }
    }
}

} // verus!
