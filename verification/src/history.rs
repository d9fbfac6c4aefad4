//! Circular, NUL-delimited log of prior lines in a fixed buffer, with an
//! independent navigation cursor.
//!
//! Entries are packed contiguously from offset 0, each followed by one
//! NUL; making room evicts whole entries from the oldest end only.

use vstd::prelude::*;
use vstd::utf8::valid_utf8;

use crate::token::lemma_size_split;
use crate::token::lemma_split_at_first_nul;
use crate::token::lemma_split_nuls_concat;
use crate::token::lemma_split_nuls_no_nul;
use crate::token::size_of_entries;
use crate::token::split_nuls;
use crate::utils::contains_nul;
use crate::utils::slice_eq;

verus! {

/// The entries stored in the first `used` bytes of `s`: NUL-terminated
/// lines, oldest first.
pub open spec fn entries_of(s: Seq<u8>, used: int) -> Seq<Seq<u8>> {
    if used <= 0 {
        Seq::empty()
    } else {
        split_nuls(s.subrange(0, used - 1))
    }
}

/// `es` without its first entry equal to `t`, if any.
pub open spec fn remove_entry(es: Seq<Seq<u8>>, t: Seq<u8>) -> Seq<Seq<u8>>
    decreases es.len(),
{
    if es.len() == 0 {
        es
    } else if es[0] == t {
        es.skip(1)
    } else {
        seq![es[0]] + remove_entry(es.skip(1), t)
    }
}

/// Drops entries from the oldest end until `need` more bytes fit in
/// `cap`.
pub open spec fn evict(es: Seq<Seq<u8>>, need: int, cap: int) -> Seq<Seq<u8>>
    decreases es.len(),
{
    if size_of_entries(es) + need <= cap || es.len() == 0 {
        es
    } else {
        evict(es.skip(1), need, cap)
    }
}

/// The deep view of a list of byte vectors.
pub open spec fn deep_of(l: Seq<Vec<u8>>) -> Seq<Seq<u8>> {
    Seq::new(l.len(), |i: int| l[i]@)
}

pub proof fn lemma_size_nonneg(es: Seq<Seq<u8>>)
    ensures
        size_of_entries(es) >= 0,
    decreases es.len(),
{
    if es.len() > 0 {
        lemma_size_nonneg(es.skip(1));
    }
}

/// The size of a split at any index: prefix plus suffix.
pub proof fn lemma_size_of_take(es: Seq<Seq<u8>>, k: int)
    requires
        0 <= k <= es.len(),
    ensures
        size_of_entries(es.take(k)) + size_of_entries(es.skip(k)) == size_of_entries(es),
    decreases k,
{
    if k == 0 {
        assert(es.take(0) =~= Seq::<Seq<u8>>::empty());
        assert(es.skip(0) =~= es);
    } else {
        lemma_size_of_take(es.skip(1), k - 1);
        assert(es.take(k).skip(1) =~= es.skip(1).take(k - 1));
        assert(es.skip(k) =~= es.skip(1).skip(k - 1));
        assert(size_of_entries(es.take(k)) == es[0].len() + 1 + size_of_entries(
            es.skip(1).take(k - 1),
        ));
    }
}

/// Removing a present entry frees exactly its bytes and its terminator.
pub proof fn lemma_remove_entry_size(es: Seq<Seq<u8>>, t: Seq<u8>)
    requires
        exists|i: int| 0 <= i < es.len() && es[i] == t,
    ensures
        size_of_entries(remove_entry(es, t)) == size_of_entries(es) - t.len() - 1,
        remove_entry(es, t).len() == es.len() - 1,
    decreases es.len(),
{
    if es[0] == t {
    } else {
        let w = choose|i: int| 0 <= i < es.len() && es[i] == t;
        assert(es.skip(1)[w - 1] == t);
        lemma_remove_entry_size(es.skip(1), t);
        let r = seq![es[0]] + remove_entry(es.skip(1), t);
        assert(r.skip(1) =~= remove_entry(es.skip(1), t));
        assert(size_of_entries(r) == es[0].len() + 1 + size_of_entries(r.skip(1)));
    }
}

/// Removing the first occurrence at index `i` is removal at `i`.
pub proof fn lemma_remove_entry_at(es: Seq<Seq<u8>>, t: Seq<u8>, i: int)
    requires
        0 <= i < es.len(),
        es[i] == t,
        forall|j: int| 0 <= j < i ==> es[j] != t,
    ensures
        remove_entry(es, t) == es.remove(i),
    decreases i,
{
    if i == 0 {
        assert(es.skip(1) =~= es.remove(0));
    } else {
        assert(es.skip(1)[i - 1] == t);
        lemma_remove_entry_at(es.skip(1), t, i - 1);
        assert(seq![es[0]] + es.skip(1).remove(i - 1) =~= es.remove(i));
    }
}

/// Without a matching entry nothing is removed.
pub proof fn lemma_remove_entry_absent(es: Seq<Seq<u8>>, t: Seq<u8>)
    requires
        forall|j: int| 0 <= j < es.len() ==> es[j] != t,
    ensures
        remove_entry(es, t) == es,
    decreases es.len(),
{
    if es.len() > 0 {
        lemma_remove_entry_absent(es.skip(1), t);
        assert(seq![es[0]] + es.skip(1) =~= es);
    }
}

/// Eviction always ends with room for the new entry.
pub proof fn lemma_evict_fits(es: Seq<Seq<u8>>, need: int, cap: int)
    requires
        0 <= need <= cap,
    ensures
        size_of_entries(evict(es, need, cap)) + need <= cap,
        evict(es, need, cap).len() <= es.len(),
    decreases es.len(),
{
    if size_of_entries(es) + need <= cap || es.len() == 0 {
    } else {
        lemma_evict_fits(es.skip(1), need, cap);
    }
}

/// Pushing a line that the history already holds does not grow the
/// total bytes used: the old copy is spliced out, no entry is evicted,
/// and the line is appended anew.
pub proof fn lemma_duplicate_push_keeps_size(es: Seq<Seq<u8>>, t: Seq<u8>, cap: int)
    requires
        exists|i: int| 0 <= i < es.len() && es[i] == t,
        size_of_entries(es) <= cap,
        0 <= t.len() + 1 <= cap,
    ensures
        size_of_entries(evict(remove_entry(es, t), t.len() as int + 1, cap).push(t)) == size_of_entries(
            es,
        ),
    decreases es.len(),
{
    lemma_remove_entry_size(es, t);
    let d = remove_entry(es, t);
    assert(size_of_entries(d) + t.len() + 1 == size_of_entries(es));
    assert(evict(d, t.len() as int + 1, cap) == d);
    let p = d.push(t);
    lemma_size_push(d, t);
}

pub proof fn lemma_size_push(es: Seq<Seq<u8>>, t: Seq<u8>)
    ensures
        size_of_entries(es.push(t)) == size_of_entries(es) + t.len() + 1,
    decreases es.len(),
{
    if es.len() == 0 {
        assert(es.push(t)[0] == t);
        assert(es.push(t).skip(1) =~= Seq::<Seq<u8>>::empty());
        assert(size_of_entries(Seq::<Seq<u8>>::empty()) == 0);
        assert(size_of_entries(es.push(t)) == es.push(t)[0].len() + 1 + size_of_entries(
            es.push(t).skip(1),
        ));
        assert(size_of_entries(es) == 0);
    } else {
        assert(es.push(t).skip(1) =~= es.skip(1).push(t));
        lemma_size_push(es.skip(1), t);
        assert(size_of_entries(es.push(t)) == es[0].len() + 1 + size_of_entries(
            es.skip(1).push(t),
        ));
    }
}

/// The entry list after pushing `t`: unchanged for a line that is
/// ignored or already newest; otherwise an older duplicate is spliced
/// out, the oldest entries are evicted until the line fits, and the
/// line becomes the newest entry.
pub open spec fn push_result(es: Seq<Seq<u8>>, t: Seq<u8>, cap: int) -> Seq<Seq<u8>> {
    if (exists|i: int| 0 <= i < t.len() && t[i] == 0u8) || t.len() == 0 || t.len() + 1 > cap {
        es
    } else if es.len() > 0 && es[es.len() - 1] == t {
        es
    } else {
        evict(remove_entry(es, t), t.len() as int + 1, cap).push(t)
    }
}

/// Entries that may be stored: non-empty, valid UTF-8, and free of the
/// NUL separator.
pub open spec fn good_entries(es: Seq<Seq<u8>>) -> bool {
    forall|i: int|
        0 <= i < es.len() ==> (#[trigger] es[i]).len() > 0 && valid_utf8(es[i]) && (forall|j: int|
            0 <= j < es[i].len() ==> es[i][j] != 0u8)
}

/// The history log over a fixed-size byte buffer.
pub struct History {
    buffer: Vec<u8>,
    /// How many bytes at the front of the buffer hold entries.
    used: usize,
    /// Index of the selected entry while navigating.
    cursor: Option<usize>,
}

impl History {
    pub closed spec fn buf(&self) -> Seq<u8> {
        self.buffer@
    }

    pub closed spec fn used_spec(&self) -> int {
        self.used as int
    }

    pub closed spec fn cursor_opt(&self) -> Option<usize> {
        self.cursor
    }

    /// The selected entry index, oldest first; nothing when at present.
    pub open spec fn selected(&self) -> Option<int> {
        match self.cursor_opt() {
            Some(i) => Some(i as int),
            None => None,
        }
    }

    /// The stored entries, oldest first.
    pub open spec fn entries(&self) -> Seq<Seq<u8>> {
        entries_of(self.buf(), self.used_spec())
    }

    pub open spec fn wf(&self) -> bool {
        &&& 0 <= self.used_spec() <= self.buf().len()
        &&& self.used_spec() > 0 ==> self.buf()[self.used_spec() - 1] == 0u8
        &&& forall|i: int|
            0 <= i < self.entries().len() ==> (#[trigger] self.entries()[i]).len() > 0
                && valid_utf8(self.entries()[i])
        &&& self.selected() matches Some(i) ==> 0 <= i < self.entries().len()
    }

    /// An empty history over a fresh buffer of `capacity` bytes.
    pub fn new(capacity: usize) -> (r: History)
        ensures
            r.wf(),
            r.buf().len() == capacity,
            r.entries() == Seq::<Seq<u8>>::empty(),
            r.selected() is None,
    {
        History { buffer: vec![0u8; capacity], used: 0, cursor: None }
    }

    /// Copies out all entries, oldest first.
    fn collect_entries(&self) -> (r: Vec<Vec<u8>>)
        requires
            self.wf(),
        ensures
            deep_of(r@) == self.entries(),
            r@.len() == self.entries().len(),
            forall|i: int| 0 <= i < r@.len() ==> (#[trigger] r@[i])@ == self.entries()[i],
    {
        let ghost es = self.entries();
        let mut list: Vec<Vec<u8>> = Vec::new();
        let used = self.used;
        if used == 0 {
            proof {
                assert(deep_of(list@) =~= es);
            }
            return list;
        }
        let ghost region = self.buf().subrange(0, used - 1);
        let mut st: usize = 0;
        while st < used
            invariant
                self.wf(),
                used == self.used_spec(),
                0 < used <= self.buf().len(),
                es == self.entries(),
                region == self.buf().subrange(0, used - 1),
                0 <= st <= used,
                st < used ==> split_nuls(self.buf().subrange(st as int, used - 1)) == es.skip(
                    list@.len() as int,
                ),
                st < used ==> list@.len() < es.len(),
                st == used ==> list@.len() == es.len(),
                forall|i: int| 0 <= i < list@.len() ==> (#[trigger] list@[i])@ == es[i],
            decreases used - st,
        {
            let mut e = st;
            while e < used - 1 && self.buffer[e] != 0u8
                invariant
                    st <= e <= used - 1,
                    used <= self.buf().len(),
                    forall|j: int| st <= j < e ==> self.buf()[j] != 0u8,
                decreases used - 1 - e,
            {
                e += 1;
            }
            let ghost sub = self.buf().subrange(st as int, used - 1);
            let ghost p = e - st;
            proof {
                assert(sub.len() == used - 1 - st);
                assert(forall|j: int| 0 <= j < p ==> sub[j] == self.buf()[st + j]);
                if (p as int) < sub.len() {
                    assert(sub[p as int] == self.buf()[e as int]);
                }
                lemma_split_at_first_nul(sub, p as int);
            }
            let entry = vstd::slice::slice_to_vec(
                vstd::slice::slice_subrange(self.buffer.as_slice(), st, e),
            );
            proof {
                assert(entry@ =~= sub.subrange(0, p as int));
                if p as int == sub.len() {
                    assert(entry@ =~= sub);
                    assert(split_nuls(sub) == seq![sub]);
                    assert(es.skip(list@.len() as int) == seq![sub]);
                    assert(es.skip(list@.len() as int)[0] == es[list@.len() as int]);
                    assert(es[list@.len() as int] == sub);
                } else {
                    assert(split_nuls(sub) == seq![sub.subrange(0, p as int)] + split_nuls(
                        sub.subrange(p + 1, sub.len() as int),
                    ));
                    assert(es.skip(list@.len() as int)[0] == es[list@.len() as int]);
                    assert(es[list@.len() as int] == sub.subrange(0, p as int));
                    assert(es.skip(list@.len() as int).skip(1) =~= es.skip(list@.len() as int + 1));
                    assert(split_nuls(sub.subrange(p + 1, sub.len() as int)) =~= es.skip(
                        list@.len() as int + 1,
                    ));
                    assert(sub.subrange(p + 1, sub.len() as int) =~= self.buf().subrange(
                        e + 1,
                        used - 1,
                    ));
                }
            }
            list.push(entry);
            st = e + 1;
            proof {
                if st < used {
                    assert(split_nuls(self.buf().subrange(st as int, used - 1)) == es.skip(
                        list@.len() as int,
                    ));
                    crate::token::lemma_split_nuls_len(
                        self.buf().subrange(st as int, used - 1),
                    );
                }
            }
        }
        proof {
            assert(deep_of(list@) =~= es);
        }
        list
    }

    /// The next entry older than the selected one; nothing when already
    /// at the oldest entry, or when the history is empty.
    pub fn next_older(&mut self) -> (r: Option<Vec<u8>>)
        requires
            old(self).wf(),
        ensures
            final(self).wf(),
            final(self).entries() == old(self).entries(),
            final(self).buf() == old(self).buf(),
            ({
                let es = old(self).entries();
                match old(self).selected() {
                    Some(i) => {
                        if i > 0 {
                            (r matches Some(v) && v@ == es[i - 1]) && final(self).selected()
                                == Some(i - 1)
                        } else {
                            r is None && final(self).selected() == old(self).selected()
                        }
                    },
                    None => {
                        if es.len() > 0 {
                            (r matches Some(v) && v@ == es[es.len() - 1]) && final(self).selected()
                                == Some(es.len() - 1)
                        } else {
                            r is None && final(self).selected() is None
                        }
                    },
                }
            }),
    {
        match self.cursor {
            Some(i) => {
                if i > 0 {
                    let mut list = self.collect_entries();
                    let e = list.swap_remove(i - 1);
                    self.cursor = Some(i - 1);
                    Some(e)
                } else {
                    None
                }
            },
            None => {
                if self.used > 0 {
                    let mut list = self.collect_entries();
                    proof {
                        crate::token::lemma_split_nuls_len(
                            self.buf().subrange(0, self.used_spec() - 1),
                        );
                    }
                    let n = list.len();
                    let e = list.swap_remove(n - 1);
                    self.cursor = Some(n - 1);
                    Some(e)
                } else {
                    None
                }
            },
        }
    }

    /// The next entry newer than the selected one; stepping past the
    /// newest entry leaves navigation and yields nothing.
    pub fn next_newer(&mut self) -> (r: Option<Vec<u8>>)
        requires
            old(self).wf(),
        ensures
            final(self).wf(),
            final(self).entries() == old(self).entries(),
            final(self).buf() == old(self).buf(),
            ({
                let es = old(self).entries();
                match old(self).selected() {
                    Some(i) => {
                        if i + 1 < es.len() {
                            (r matches Some(v) && v@ == es[i + 1]) && final(self).selected()
                                == Some(i + 1)
                        } else {
                            r is None && final(self).selected() is None
                        }
                    },
                    None => r is None && final(self).selected() is None,
                }
            }),
    {
        match self.cursor {
            Some(i) => {
                let mut list = self.collect_entries();
                let n = list.len();
                if i + 1 < n {
                    let e = list.swap_remove(i + 1);
                    self.cursor = Some(i + 1);
                    Some(e)
                } else {
                    self.cursor = None;
                    None
                }
            },
            None => None,
        }
    }

    /// Pushes one line as the newest entry.
    ///
    /// A line with a NUL byte, an empty line, or one that cannot fit
    /// even alone is ignored.  A line equal to the newest entry leaves
    /// the entries as they are; one equal to an older entry is spliced
    /// out first; then whole entries are evicted from the oldest end
    /// until the line and its terminator fit, and the line is appended.
    /// Any navigation in progress ends, except on an ignored line.
    pub fn push(&mut self, text: &[u8])
        requires
            old(self).wf(),
            valid_utf8(text@),
        ensures
            final(self).wf(),
            final(self).buf().len() == old(self).buf().len(),
            ({
                let es = old(self).entries();
                let cap = old(self).buf().len() as int;
                let t = text@;
                let invalid = (exists|i: int| 0 <= i < t.len() && t[i] == 0u8) || t.len() == 0
                    || t.len() + 1 > cap;
                &&& invalid ==> *final(self) == *old(self)
                &&& !invalid && es.len() > 0 && es[es.len() - 1] == t ==> final(self).entries()
                    == es && final(self).selected() is None
                &&& !invalid && !(es.len() > 0 && es[es.len() - 1] == t) ==> final(self).entries()
                    == evict(remove_entry(es, t), t.len() as int + 1, cap).push(t)
                    && final(self).selected() is None
                &&& final(self).entries() == push_result(es, t, cap)
            }),
    {
        let tlen = text.len();
        if contains_nul(text) || tlen == 0 || tlen >= self.buffer.len() {
            return;
        }
        let ghost es = old(self).entries();
        let ghost t = text@;
        let ghost cap = old(self).buf().len() as int;
        proof {
            if self.used > 0 {
                lemma_split_nuls_no_nul(self.buf().subrange(0, self.used_spec() - 1));
                lemma_size_split(self.buf().subrange(0, self.used_spec() - 1));
            }
            assert(good_entries(es));
            assert(size_of_entries(es) <= cap);
        }
        let mut list = self.collect_entries();
        let n = list.len();
        if n > 0 && slice_eq(list[n - 1].as_slice(), text) {
            proof {
                assert(list@[n - 1]@ == es[n - 1]);
            }
            self.cursor = None;
            return;
        }
        // splice out an older duplicate, if one exists
        let mut found: Option<usize> = None;
        let mut i: usize = 0;
        while i < n
            invariant
                0 <= i <= n,
                n == list@.len(),
                deep_of(list@) == es,
                tlen == text@.len(),
                found is None ==> forall|j: int| 0 <= j < i ==> es[j] != text@,
                found matches Some(fi) ==> 0 <= fi < n && es[fi as int] == text@ && (forall|j: int|
                    0 <= j < fi ==> es[j] != text@),
            decreases n - i,
        {
            if found.is_none() {
                if slice_eq(list[i].as_slice(), text) {
                    proof {
                        assert(list@[i as int]@ == es[i as int]);
                    }
                    found = Some(i);
                }
            }
            i += 1;
        }
        let ghost kept = remove_entry(es, t);
        match found {
            Some(fi) => {
                list.remove(fi);
                proof {
                    lemma_remove_entry_at(es, t, fi as int);
                    assert(deep_of(list@) =~= es.remove(fi as int));
                }
            },
            None => {
                proof {
                    lemma_remove_entry_absent(es, t);
                    assert(deep_of(list@) =~= es);
                }
            },
        }
        proof {
            assert(deep_of(list@) == kept);
            lemma_remove_entry_size_le(es, t);
            lemma_good_remove(es, t);
            assert(size_of_entries(kept) <= cap);
        }
        // total bytes the kept entries occupy
        proof {
            lemma_size_nonneg(kept);
        }
        let mut sz: usize = 0;
        let mut k: usize = 0;
        let kn = list.len();
        let capn = self.buffer.len();
        while k < kn
            invariant
                0 <= k <= kn,
                kn == list@.len(),
                deep_of(list@) == kept,
                size_of_entries(kept) <= cap,
                capn as int == cap,
                sz == size_of_entries(kept.take(k as int)),
                sz <= size_of_entries(kept),
            decreases kn - k,
        {
            proof {
                lemma_size_of_take(kept, k as int);
                lemma_size_of_take(kept, k + 1);
                assert(kept.take(k + 1).take(k as int) =~= kept.take(k as int));
                lemma_size_of_take(kept.take(k + 1), k as int);
                assert(kept.take(k + 1).skip(k as int) =~= seq![kept[k as int]]);
                assert(seq![kept[k as int]].skip(1) =~= Seq::<Seq<u8>>::empty());
                assert(size_of_entries(Seq::<Seq<u8>>::empty()) == 0);
                assert(size_of_entries(seq![kept[k as int]]) == kept[k as int].len() + 1);
                lemma_size_nonneg(kept.skip(k + 1));
                lemma_size_nonneg(kept.take(k as int));
                assert(list@[k as int]@ == kept[k as int]);
            }
            let elen = list[k].len();
            proof {
                assert(sz + elen + 1 == size_of_entries(kept.take(k + 1)));
                assert(size_of_entries(kept.take(k + 1)) <= size_of_entries(kept));
                assert(sz + elen + 1 <= capn as int);
            }
            sz = sz + elen + 1;
            k += 1;
        }
        proof {
            assert(kept.take(kn as int) =~= kept);
        }
        // evict whole entries from the oldest end until the line fits
        while sz > self.buffer.len() - tlen - 1
            invariant
                tlen == text@.len(),
                tlen + 1 <= cap,
                self.buffer@.len() == cap,
                good_entries(deep_of(list@)),
                sz == size_of_entries(deep_of(list@)),
                evict(deep_of(list@), tlen + 1, cap) == evict(kept, tlen + 1, cap),
            decreases list@.len(),
        {
            proof {
                if list@.len() == 0 {
                    assert(deep_of(list@) =~= Seq::<Seq<u8>>::empty());
                    assert(size_of_entries(deep_of(list@)) == 0);
                }
                lemma_size_nonneg(deep_of(list@).skip(1));
            }
            let ghost d = deep_of(list@);
            let e = list.remove(0);
            proof {
                assert(deep_of(list@) =~= d.skip(1));
                assert(e@ == d[0]);
                assert(size_of_entries(d) == d[0].len() + 1 + size_of_entries(d.skip(1)));
                assert(evict(d, tlen + 1, cap) == evict(d.skip(1), tlen + 1, cap));
                assert forall|ii: int| 0 <= ii < d.skip(1).len() implies (#[trigger] d.skip(
                    1,
                )[ii]).len() > 0 && valid_utf8(d.skip(1)[ii]) && (forall|j: int|
                    0 <= j < d.skip(1)[ii].len() ==> d.skip(1)[ii][j] != 0u8) by {
                    assert(d.skip(1)[ii] == d[ii + 1]);
                }
            }
            let elen = e.len();
            sz = sz - (elen + 1);
        }
        proof {
            assert(evict(deep_of(list@), tlen + 1, cap) == deep_of(list@));
            lemma_evict_fits(kept, tlen + 1, cap);
            assert(forall|j: int| 0 <= j < text@.len() ==> text@[j] != 0u8);
        }
        self.cursor = None;
        self.write_entries(&list, text);
        proof {
            assert(deep_of(list@) == evict(kept, tlen + 1, cap));
        }
    }

    /// Rewrites the buffer to hold exactly the given entries followed by
    /// the new line, each NUL-terminated.
    fn write_entries(&mut self, list: &Vec<Vec<u8>>, text: &[u8])
        requires
            good_entries(deep_of(list@)),
            text@.len() > 0,
            forall|j: int| 0 <= j < text@.len() ==> text@[j] != 0u8,
            size_of_entries(deep_of(list@)) + text@.len() + 1 <= old(self).buf().len(),
            size_of_entries(deep_of(list@)) >= 0,
        ensures
            final(self).buf().len() == old(self).buf().len(),
            final(self).cursor_opt() == old(self).cursor_opt(),
            final(self).used_spec() == size_of_entries(deep_of(list@)) + text@.len() + 1,
            final(self).buf()[final(self).used_spec() - 1] == 0u8,
            final(self).entries() == deep_of(list@).push(text@),
    {
        let ghost des = deep_of(list@);
        let cap = self.buffer.len();
        let mut pos: usize = 0;
        let mut k: usize = 0;
        let kn = list.len();
        while k < kn
            invariant
                0 <= k <= kn,
                kn == list@.len(),
                des == deep_of(list@),
                good_entries(des),
                size_of_entries(des) + text@.len() + 1 <= cap,
                text@.len() >= 1,
                cap == self.buffer@.len(),
                self.used == old(self).used,
                self.cursor == old(self).cursor,
                0 <= pos,
                pos == size_of_entries(des.take(k as int)),
                pos > 0 ==> self.buffer@[pos - 1] == 0u8,
                entries_of(self.buffer@, pos as int) == des.take(k as int),
            decreases kn - k,
        {
            proof {
                lemma_size_of_take(des, k + 1);
                assert(des.take(k + 1).take(k as int) =~= des.take(k as int));
                lemma_size_of_take(des.take(k + 1), k as int);
                assert(des.take(k + 1).skip(k as int) =~= seq![des[k as int]]);
                assert(seq![des[k as int]].skip(1) =~= Seq::<Seq<u8>>::empty());
                assert(size_of_entries(Seq::<Seq<u8>>::empty()) == 0);
                assert(size_of_entries(seq![des[k as int]]) == des[k as int].len() + 1);
                lemma_size_nonneg(des.skip(k + 1));
                lemma_size_of_take(des, k as int);
                lemma_size_nonneg(des.skip(k as int));
                assert(pos + des[k as int].len() + 1 <= size_of_entries(des));
                assert(list@[k as int]@ == des[k as int]);
            }
            let ghost pre = self.buffer@;
            let elen = list[k].len();
            let mut idx: usize = 0;
            while idx < elen
                invariant
                    0 <= idx <= elen,
                    k < kn,
                    kn == list@.len(),
                    elen == list@[k as int]@.len(),
                    pos + elen + 1 <= cap,
                    cap == self.buffer@.len(),
                    self.used == old(self).used,
                    self.cursor == old(self).cursor,
                    forall|j: int| 0 <= j < pos ==> self.buffer@[j] == pre[j],
                    forall|j: int|
                        pos <= j < pos + idx ==> self.buffer@[j] == list@[k as int]@[j - pos],
                decreases elen - idx,
            {
                let b = list[k][idx];
                self.buffer[pos + idx] = b;
                idx += 1;
            }
            self.buffer[pos + elen] = 0u8;
            proof {
                let e = des[k as int];
                let newpos = pos + elen + 1;
                let region1 = self.buffer@.subrange(0, newpos - 1);
                if pos == 0 {
                    assert(region1 =~= e);
                    lemma_split_at_first_nul(e, e.len() as int);
                    assert(entries_of(self.buffer@, newpos as int) == seq![e]);
                    assert(des.take(k as int) =~= Seq::<Seq<u8>>::empty());
                    assert(seq![e] =~~= des.take(k as int).push(e));
                } else {
                    let a = pre.subrange(0, pos - 1);
                    assert(region1 =~= a + seq![0u8] + e);
                    lemma_split_nuls_concat(a, e);
                    lemma_split_at_first_nul(e, e.len() as int);
                    assert(entries_of(pre, pos as int) == split_nuls(a));
                    assert(split_nuls(e) == seq![e]);
                    assert(entries_of(self.buffer@, newpos as int) =~~= des.take(
                        k as int,
                    ).push(e));
                }
                assert(des.take(k + 1) =~~= des.take(k as int).push(e));
            }
            pos = pos + elen + 1;
            k += 1;
        }
        proof {
            assert(des.take(kn as int) =~= des);
            lemma_size_nonneg(des);
        }
        // append the new line
        let tlen = text.len();
        let ghost pre = self.buffer@;
        let mut idx: usize = 0;
        while idx < tlen
            invariant
                0 <= idx <= tlen,
                tlen == text@.len(),
                pos + tlen + 1 <= cap,
                cap == self.buffer@.len(),
                self.used == old(self).used,
                self.cursor == old(self).cursor,
                forall|j: int| 0 <= j < pos ==> self.buffer@[j] == pre[j],
                forall|j: int| pos <= j < pos + idx ==> self.buffer@[j] == text@[j - pos],
            decreases tlen - idx,
        {
            let b = text[idx];
            self.buffer[pos + idx] = b;
            idx += 1;
        }
        self.buffer[pos + tlen] = 0u8;
        self.used = pos + tlen + 1;
        proof {
            let newpos = pos + tlen + 1;
            let region1 = self.buffer@.subrange(0, newpos - 1);
            if pos == 0 {
                assert(region1 =~= text@);
                lemma_split_at_first_nul(text@, text@.len() as int);
                assert(des =~= Seq::<Seq<u8>>::empty());
                assert(entries_of(self.buffer@, newpos as int) =~~= des.push(text@));
            } else {
                let a = pre.subrange(0, pos - 1);
                assert(region1 =~= a + seq![0u8] + text@);
                lemma_split_nuls_concat(a, text@);
                lemma_split_at_first_nul(text@, text@.len() as int);
                assert(entries_of(pre, pos as int) == split_nuls(a));
                assert(entries_of(self.buffer@, newpos as int) =~~= des.push(text@));
            }
        }
    }
}

/// Removing an entry keeps the rest non-empty, valid and NUL-free.
pub proof fn lemma_good_remove(es: Seq<Seq<u8>>, t: Seq<u8>)
    requires
        good_entries(es),
    ensures
        good_entries(remove_entry(es, t)),
    decreases es.len(),
{
    if es.len() == 0 {
    } else if es[0] == t {
        assert forall|i: int| 0 <= i < es.skip(1).len() implies (#[trigger] es.skip(
            1,
        )[i]).len() > 0 && valid_utf8(es.skip(1)[i]) && (forall|j: int|
            0 <= j < es.skip(1)[i].len() ==> es.skip(1)[i][j] != 0u8) by {
            assert(es.skip(1)[i] == es[i + 1]);
        }
    } else {
        assert forall|i: int| 0 <= i < es.skip(1).len() implies (#[trigger] es.skip(
            1,
        )[i]).len() > 0 && valid_utf8(es.skip(1)[i]) && (forall|j: int|
            0 <= j < es.skip(1)[i].len() ==> es.skip(1)[i][j] != 0u8) by {
            assert(es.skip(1)[i] == es[i + 1]);
        }
        lemma_good_remove(es.skip(1), t);
        let r = seq![es[0]] + remove_entry(es.skip(1), t);
        assert forall|i: int| 0 <= i < r.len() implies (#[trigger] r[i]).len() > 0 && valid_utf8(
            r[i],
        ) && (forall|j: int| 0 <= j < r[i].len() ==> r[i][j] != 0u8) by {
            if i > 0 {
                assert(r[i] == remove_entry(es.skip(1), t)[i - 1]);
            }
        }
    }
}

/// The bytes freed by removing a duplicate never exceed what was used.
pub proof fn lemma_remove_entry_size_le(es: Seq<Seq<u8>>, t: Seq<u8>)
    ensures
        size_of_entries(remove_entry(es, t)) <= size_of_entries(es),
    decreases es.len(),
{
    lemma_size_nonneg(es);
    if es.len() == 0 {
    } else if es[0] == t {
        lemma_size_nonneg(es.skip(1));
    } else {
        lemma_remove_entry_size_le(es.skip(1), t);
        let r = seq![es[0]] + remove_entry(es.skip(1), t);
        assert(r.skip(1) =~= remove_entry(es.skip(1), t));
        assert(size_of_entries(r) == es[0].len() + 1 + size_of_entries(r.skip(1)));
    }
}

} // verus!
