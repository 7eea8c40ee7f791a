//! Merging containers: re-streaming the pages of opened containers into a
//! new one, in natural name order, without re-decoding.

use lexical_sort::{natural_lexical_cmp, StringSort};
use vstd::prelude::*;
use vstd::string::StrSliceExecFns;
use vstd::utf8::is_ascii_chars;

use crate::archive::{lookup, EntryV};
use crate::codec::is_image_bytes;
use crate::names::{entry_name_bytes, entry_name_spec};
use crate::reader::Reader;
use crate::spine::keeps;
use crate::writer::Writer;

verus! {

/// Merging pages out of a source container failed.
#[derive(Debug, Clone, Copy, PartialEq, Eq, Structural)]
pub enum MergeError {
    /// A spine entry has gone missing from its archive.
    ZipFile,
    /// An entry name carries a digit run beyond what the natural comparer
    /// can read, or characters outside plain ASCII.  Refusing every
    /// non-ASCII name is narrower than the wider ecosystem, which
    /// transliterates such names before comparing: transliteration can
    /// mint digit runs of its own, which this library cannot bound, so it
    /// rejects the container instead of risking the comparer's counter.
    UnsortableName,
}

/// The natural-lexical order of two entry names: digit runs compare as
/// numbers, the rest lexicographically.
pub uninterp spec fn natural_le(a: Seq<char>, b: Seq<char>) -> bool;

/// An ASCII decimal digit.
pub open spec fn dec_digit(c: char) -> bool {
    '0' <= c && c <= '9'
}

/// Where the digit run starting at `p` ends.
pub open spec fn run_end(s: Seq<char>, p: int) -> int
    decreases s.len() - p
        when 0 <= p <= s.len()
{
    if p >= s.len() || !dec_digit(s[p]) {
        p
    } else {
        run_end(s, p + 1)
    }
}

/// The number a run of digit characters spells.
pub open spec fn digits_value(d: Seq<char>) -> int
    decreases d.len(),
{
    if d.len() == 0 {
        0
    } else {
        digits_value(d.drop_last()) * 10 + (d.last() as int - 48)
    }
}

/// Whether the natural comparer can order this name: it reads each digit
/// run into a sixty-four-bit number, and it transliterates anything beyond
/// plain ASCII before comparing, so a sortable name is ASCII with every
/// digit run's value in range.
pub open spec fn nat_sortable(s: Seq<char>) -> bool {
    &&& is_ascii_chars(s)
    &&& forall|p: int|
        0 <= p < s.len() && #[trigger] dec_digit(s[p]) && (p == 0 || !dec_digit(s[p - 1]))
            ==> digits_value(s.subrange(p, run_end(s, p))) <= u64::MAX
}

/// Relies on `lexical_sort::StringSort::string_sort_unstable` with
/// `lexical_sort::natural_lexical_cmp`: sorting permutes the names and
/// leaves them ordered by the comparer, which reads nothing but the two
/// strings.  The comparer accumulates each digit run in a sixty-four-bit
/// number, so names whose runs stay in range keep it from overflowing.
#[verifier::external_body]
fn natural_sort(names: &mut Vec<String>)
    requires
        forall|k: int|
            0 <= k < old(names).deep_view().len() ==> nat_sortable(
                #[trigger] old(names).deep_view()[k],
            ),
    ensures
        final(names).deep_view().to_multiset() == old(names).deep_view().to_multiset(),
        forall|i: int, j: int|
            0 <= i < j < final(names).deep_view().len() ==> natural_le(
                #[trigger] final(names).deep_view()[i],
                #[trigger] final(names).deep_view()[j],
            ),
{
    names.string_sort_unstable(natural_lexical_cmp);
}

proof fn lemma_run_end_props(s: Seq<char>, p: int)
    requires
        0 <= p <= s.len(),
    ensures
        p <= run_end(s, p) <= s.len(),
        forall|m: int| p <= m < run_end(s, p) ==> dec_digit(s[m]),
        run_end(s, p) < s.len() ==> !dec_digit(s[run_end(s, p)]),
    decreases s.len() - p,
{
    if p < s.len() && dec_digit(s[p]) {
        lemma_run_end_props(s, p + 1);
    }
}

proof fn lemma_run_end_exact(s: Seq<char>, p: int, q: int)
    requires
        0 <= p <= q <= s.len(),
        forall|m: int| p <= m < q ==> dec_digit(s[m]),
        q == s.len() || !dec_digit(s[q]),
    ensures
        run_end(s, p) == q,
    decreases q - p,
{
    if p < q {
        assert(dec_digit(s[p]));
        lemma_run_end_exact(s, p + 1, q);
    }
}

/// A run of digits spells a non-negative number, and any leading part of
/// it spells no more than the whole.
proof fn lemma_digits_value_mono(d: Seq<char>, k: int)
    requires
        forall|m: int| 0 <= m < d.len() ==> dec_digit(d[m]),
        0 <= k <= d.len(),
    ensures
        0 <= digits_value(d.take(k)) <= digits_value(d),
    decreases d.len(),
{
    if d.len() == 0 {
        assert(d.take(k) =~= d);
    } else if k == d.len() {
        assert(d.take(k) =~= d);
        lemma_digits_value_mono(d.drop_last(), d.len() - 1);
        assert(d.drop_last().take(d.len() - 1) =~= d.drop_last());
    } else {
        assert forall|m: int| 0 <= m < d.drop_last().len() implies dec_digit(
            d.drop_last()[m],
        ) by {
            assert(d.drop_last()[m] == d[m]);
        }
        assert(d.take(k) =~= d.drop_last().take(k));
        lemma_digits_value_mono(d.drop_last(), k);
        lemma_digits_value_mono(d.drop_last(), d.drop_last().len() as int);
        assert(d.drop_last().take(d.drop_last().len() as int) =~= d.drop_last());
    }
}

/// Whether the natural comparer can order this name.
pub fn name_sortable(name: &str) -> (r: bool)
    ensures
        r == nat_sortable(name@),
{
    let n = name.unicode_len();
    let mut i: usize = 0;

    while i < n
        invariant
            i <= n,
            n == name@.len(),
            forall|m: int| 0 <= m < i ==> '\0' <= #[trigger] name@[m] <= '\u{7f}',
            forall|p: int|
                0 <= p < i && #[trigger] dec_digit(name@[p]) && (p == 0 || !dec_digit(
                    name@[p - 1],
                )) ==> digits_value(name@.subrange(p, run_end(name@, p))) <= u64::MAX,
        decreases n - i,
    {
        let c = name.get_char(i);
        if !(c <= '\u{7f}') {
            proof {
                assert(!is_ascii_chars(name@));
            }
            return false;
        }

        let run_start = i == 0 || {
            let prev = name.get_char(i - 1);
            !('0' <= prev && prev <= '9')
        };

        if ('0' <= c && c <= '9') && run_start {
            let ghost start = i as int;
            let mut val: u128 = (c as u32 - 48) as u128;
            let mut j: usize = i + 1;

            proof {
                assert(name@.subrange(start, start + 1).drop_last() =~= Seq::<char>::empty());
                assert(name@.subrange(start, start + 1).last() == name@[start]);
                assert(digits_value(Seq::<char>::empty()) == 0);
            }

            loop
                invariant_except_break
                    n == name@.len(),
                    start == i,
                    i < j <= n,
                    i < n,
                    start == 0 || !dec_digit(name@[start - 1]),
                    forall|m: int| start <= m < j ==> #[trigger] dec_digit(name@[m]),
                    val as int == digits_value(name@.subrange(start, j as int)),
                    val <= u64::MAX,
                ensures
                    n == name@.len(),
                    start == i,
                    i < j <= n,
                    forall|m: int| start <= m < j ==> #[trigger] dec_digit(name@[m]),
                    val as int == digits_value(name@.subrange(start, j as int)),
                    val <= u64::MAX,
                    j == n || !dec_digit(name@[j as int]),
                decreases n - j,
            {
                if j >= n {
                    break ;
                }
                let cj = name.get_char(j);
                if !('0' <= cj && cj <= '9') {
                    break ;
                }

                proof {
                    assert(name@.subrange(start, j + 1).drop_last() =~= name@.subrange(
                        start,
                        j as int,
                    ));
                    assert(name@.subrange(start, j + 1).last() == name@[j as int]);
                }
                val = val * 10 + ((cj as u32 - 48) as u128);
                if val > u64::MAX as u128 {
                    // this run has outgrown the comparer's range
                    proof {
                        assert(val as int == digits_value(name@.subrange(start, j + 1)));
                        lemma_run_prefix_overflow(name@, start, j as int);
                        assert(dec_digit(name@[start as int]));
                        assert(digits_value(name@.subrange(start, run_end(name@, start)))
                            > u64::MAX);
                        assert(!nat_sortable(name@));
                    }
                    return false;
                }
                j = j + 1;
            }

            proof {
                lemma_run_end_exact(name@, start, j as int);
                assert(name@.subrange(start, run_end(name@, start)) =~= name@.subrange(
                    start,
                    j as int,
                ));
                assert forall|m: int| start <= m < j implies '\0' <= #[trigger] name@[m]
                    <= '\u{7f}' by {
                    assert(dec_digit(name@[m]));
                }
                assert forall|p: int|
                    0 <= p < j && #[trigger] dec_digit(name@[p]) && (p == 0 || !dec_digit(
                        name@[p - 1],
                    )) implies digits_value(name@.subrange(p, run_end(name@, p)))
                    <= u64::MAX by {
                    if p > start {
                        assert(dec_digit(name@[p - 1]));
                    }
                }
            }
            i = j;
        } else {
            i = i + 1;
        }
    }

    proof {
        assert(is_ascii_chars(name@));
    }
    true
}

/// When a run's leading digits already spell more than the comparer's
/// range, the whole run does.
proof fn lemma_run_prefix_overflow(s: Seq<char>, start: int, j: int)
    requires
        0 <= start <= j < s.len(),
        forall|m: int| start <= m < j ==> #[trigger] dec_digit(s[m]),
        dec_digit(s[j]),
        digits_value(s.subrange(start, j + 1)) > u64::MAX,
    ensures
        digits_value(s.subrange(start, run_end(s, start))) > u64::MAX,
{
    lemma_run_into(s, start, j);
    lemma_run_end_props(s, start);
    let q = run_end(s, start);
    let run = s.subrange(start, q);
    assert forall|m: int| 0 <= m < run.len() implies dec_digit(#[trigger] run[m]) by {
        assert(run[m] == s[start + m]);
    }
    assert(s.subrange(start, j + 1) =~= run.take(j + 1 - start));
    lemma_digits_value_mono(run, j + 1 - start);
}

/// A position whose characters up to and including `j` are digits lies
/// strictly inside the run that starts at `start`.
proof fn lemma_run_into(s: Seq<char>, start: int, j: int)
    requires
        0 <= start <= j < s.len(),
        forall|m: int| start <= m < j ==> #[trigger] dec_digit(s[m]),
        dec_digit(s[j]),
    ensures
        run_end(s, start) > j,
    decreases j - start,
{
    if start == j {
        lemma_run_end_props(s, start + 1);
    } else {
        lemma_run_into(s, start + 1, j);
    }
}

/// The index of the last occurrence of `c` in `s`, or `-1`.
pub open spec fn last_of(s: Seq<char>, c: char) -> int
    decreases s.len(),
{
    if s.len() == 0 {
        -1
    } else if s.last() == c {
        s.len() - 1
    } else {
        last_of(s.drop_last(), c)
    }
}

/// The extension of an entry name: what follows the last dot of its final
/// path component, empty when the component has no dot past its first
/// character.
pub open spec fn ext_of(name: Seq<char>) -> Seq<char> {
    let comp = name.skip(last_of(name, '/') + 1);
    if last_of(comp, '.') <= 0 {
        Seq::empty()
    } else {
        comp.skip(last_of(comp, '.') + 1)
    }
}

proof fn lemma_last_of_found(s: Seq<char>, c: char, k: int)
    requires
        0 <= k < s.len(),
        s[k] == c,
        forall|m: int| k < m < s.len() ==> s[m] != c,
    ensures
        last_of(s, c) == k,
    decreases s.len(),
{
    if k < s.len() - 1 {
        assert(s.last() != c);
        assert forall|m: int| k < m < s.drop_last().len() implies s.drop_last()[m] != c by {
            assert(s.drop_last()[m] == s[m]);
        }
        assert(s.drop_last()[k] == s[k]);
        lemma_last_of_found(s.drop_last(), c, k);
    }
}

proof fn lemma_last_of_none(s: Seq<char>, c: char)
    requires
        forall|m: int| 0 <= m < s.len() ==> s[m] != c,
    ensures
        last_of(s, c) == -1,
    decreases s.len(),
{
    if s.len() > 0 {
        assert forall|m: int| 0 <= m < s.drop_last().len() implies s.drop_last()[m] != c by {
            assert(s.drop_last()[m] == s[m]);
        }
        lemma_last_of_none(s.drop_last(), c);
    }
}

/// The index just past the last occurrence of `c`, or zero.
fn scan_past_last(name: &str, c: char) -> (r: usize)
    ensures
        r as int == last_of(name@, c) + 1,
        r <= name@.len(),
{
    let n = name.unicode_len();
    let mut i: usize = n;
    while i > 0
        invariant
            i <= n,
            n == name@.len(),
            forall|m: int| i <= m < n ==> name@[m] != c,
        decreases i,
    {
        let ch = name.get_char(i - 1);
        if ch == c {
            proof {
                lemma_last_of_found(name@, c, i - 1);
            }
            return i;
        }
        i = i - 1;
    }
    proof {
        lemma_last_of_none(name@, c);
    }
    0
}

/// The extension of an entry name, for re-streaming it under its own kind.
pub fn ext_of_name(name: &str) -> (r: &str)
    ensures
        r@ == ext_of(name@),
{
    let n = name.unicode_len();
    let comp_start = scan_past_last(name, '/');
    let comp = name.substring_char(comp_start, n);
    proof {
        assert(comp@ =~= name@.skip(last_of(name@, '/') + 1));
    }
    let d = scan_past_last(comp, '.');
    if d <= 1 {
        proof {
            reveal_strlit("");
        }
        ""
    } else {
        let r = comp.substring_char(d, comp.unicode_len());
        proof {
            assert(r@ =~= comp@.skip(last_of(comp@, '.') + 1));
        }
        r
    }
}

/// What re-streaming one named page does to the destination: a page whose
/// bytes classify as an image and fit the format, into a writer with room
/// and under a name the format can hold, is stored under the next counter
/// and its own extension; any other page is skipped.
pub open spec fn merge_one(es: Seq<EntryV>, name: Seq<char>, src: Seq<EntryV>) -> Seq<EntryV> {
    match lookup(src, name) {
        Some((d, f)) => if is_image_bytes(d) && es.len() < usize::MAX && !crate::writer::dir_suffixed(
            ext_of(name),
        ) && entry_name_bytes(es.len(), ext_of(name)) <= 65535 && d.len() <= 0xFFFF_FFFF {
            es.push((entry_name_spec(es.len(), ext_of(name)), d, true))
        } else {
            es
        },
        None => es,
    }
}

/// The destination entries after re-streaming a whole run of named pages.
pub open spec fn merged(es: Seq<EntryV>, names: Seq<Seq<char>>, src: Seq<EntryV>) -> Seq<EntryV>
    decreases names.len(),
{
    if names.len() == 0 {
        es
    } else {
        merged(merge_one(es, names[0], src), names.drop_first(), src)
    }
}

proof fn lemma_merged_push(es: Seq<EntryV>, names: Seq<Seq<char>>, n: Seq<char>, src: Seq<EntryV>)
    ensures
        merged(es, names.push(n), src) == merge_one(merged(es, names, src), n, src),
    decreases names.len(),
{
    if names.len() == 0 {
        assert(names.push(n)[0] == n);
        assert(names.push(n).drop_first() =~= Seq::<Seq<char>>::empty());
        assert(merged(es, names, src) == es);
        assert(merged(merge_one(es, n, src), Seq::<Seq<char>>::empty(), src) == merge_one(
            es,
            n,
            src,
        ));
    } else {
        assert(names.push(n)[0] == names[0]);
        assert(names.push(n).drop_first() =~= names.drop_first().push(n));
        lemma_merged_push(merge_one(es, names[0], src), names.drop_first(), n, src);
    }
}

/// Re-stream every page of an opened container into the destination, in
/// natural name order, without decoding.  A page the destination rejects
/// is skipped, as is one whose bytes cannot be read back; a page that has
/// gone missing from its archive fails the merge, and so does a name the
/// natural comparer cannot order.
pub fn append_container(cbz: &mut Writer, reader: &mut Reader) -> (r: Result<(), MergeError>)
    requires
        old(cbz).wf(),
        old(reader).wf(),
    ensures
        final(cbz).wf(),
        final(reader).wf(),
        final(reader).entries() == old(reader).entries(),
        final(reader).readable() == old(reader).readable(),
        final(reader).names() == old(reader).names(),
        (exists|k: int|
            0 <= k < old(reader).names().len() && !nat_sortable(
                #[trigger] old(reader).names()[k],
            )) ==> (r matches Err(e) && e == MergeError::UnsortableName) && *final(cbz) == *old(
            cbz,
        ),
        r matches Err(e) && e == MergeError::UnsortableName ==> exists|k: int|
            0 <= k < old(reader).names().len() && !nat_sortable(
                #[trigger] old(reader).names()[k],
            ),
        r matches Err(e) && e == MergeError::ZipFile ==> !old(reader).readable(),
        old(reader).readable() && (forall|k: int|
            0 <= k < old(reader).names().len() ==> nat_sortable(
                #[trigger] old(reader).names()[k],
            )) ==> r is Ok,
        r is Ok && old(reader).readable() ==> exists|sorted: Seq<Seq<char>>|
            {
                &&& #[trigger] sorted.to_multiset() == old(reader).names().to_multiset()
                &&& forall|i: int, j: int|
                    0 <= i < j < sorted.len() ==> natural_le(
                        #[trigger] sorted[i],
                        #[trigger] sorted[j],
                    )
                &&& final(cbz).entries() == merged(
                    old(cbz).entries(),
                    sorted,
                    old(reader).entries(),
                )
            },
{
    broadcast use vstd::seq_lib::group_to_multiset_ensures;

    let mut names = reader.spine().name_list();

    let mut s: usize = 0;
    while s < names.len()
        invariant
            *cbz == *old(cbz),
            *reader == *old(reader),
            old(cbz).wf(),
            old(reader).wf(),
            names.deep_view() == old(reader).names(),
            s <= names.deep_view().len(),
            forall|m: int| 0 <= m < s ==> nat_sortable(#[trigger] names.deep_view()[m]),
        decreases names.deep_view().len() - s,
    {
        if !name_sortable(names[s].as_str()) {
            proof {
                assert(!nat_sortable(old(reader).names()[s as int]));
            }
            return Err(MergeError::UnsortableName);
        }
        s = s + 1;
    }

    natural_sort(&mut names);

    let ghost sorted = names.deep_view();
    let ghost src = reader.entries();

    proof {
        assert forall|k: int| 0 <= k < sorted.len() implies keeps(
            src,
            #[trigger] sorted[k],
        ) by {
            assert(sorted.contains(sorted[k]));
            assert(sorted.to_multiset().count(sorted[k]) > 0);
            assert(old(reader).names().to_multiset().count(sorted[k]) > 0);
            assert(old(reader).names().contains(sorted[k]));
            let j = choose|j: int|
                0 <= j < old(reader).names().len() && old(reader).names()[j] == sorted[k];
            assert(keeps(src, old(reader).names()[j]));
        }
        assert(sorted.take(0int) =~= Seq::<Seq<char>>::empty());
    }

    let mut i: usize = 0;
    while i < names.len()
        invariant
            old(reader).wf(),
            reader.wf(),
            reader.entries() == old(reader).entries(),
            reader.readable() == old(reader).readable(),
            reader.names() == old(reader).names(),
            src == reader.entries(),
            sorted == names.deep_view(),
            sorted.to_multiset() == old(reader).names().to_multiset(),
            forall|a: int, b: int|
                0 <= a < b < sorted.len() ==> natural_le(
                    #[trigger] sorted[a],
                    #[trigger] sorted[b],
                ),
            forall|m: int|
                0 <= m < old(reader).names().len() ==> nat_sortable(
                    #[trigger] old(reader).names()[m],
                ),
            i <= sorted.len(),
            forall|k: int| 0 <= k < sorted.len() ==> keeps(src, #[trigger] sorted[k]),
            cbz.wf(),
            old(reader).readable() ==> cbz.entries() == merged(
                old(cbz).entries(),
                sorted.take(i as int),
                src,
            ),
        decreases sorted.len() - i,
    {
        proof {
            assert(keeps(src, sorted[i as int]));
            assert(sorted.take(i + 1).drop_last() =~= sorted.take(i as int));
            assert(sorted.take(i + 1) =~= sorted.take(i as int).push(sorted[i as int]));
            lemma_merged_push(old(cbz).entries(), sorted.take(i as int), sorted[i as int], src);
        }
        match reader.by_name(names[i].as_str()) {
            Ok(data) => {
                let ext = ext_of_name(names[i].as_str());
                let _ = cbz.insert_buf(ext, data.as_slice());
            },
            Err(e) => {
                proof {
                    assert(!old(reader).readable());
                }
                if matches!(e, crate::errors::LoadImageError::ZipByName) {
                    return Err(MergeError::ZipFile);
                }
                // the entry resolved but its bytes did not read back: skip
                // it and carry on with the rest of the batch
                proof {
                    assert(!old(reader).readable());
                }
            },
        }
        i = i + 1;
    }

    proof {
        assert(sorted.take(sorted.len() as int) =~= sorted);
    }
    Ok(())
}

} // verus!
