//! The shared repository: an append-only pool of books, per-book checkout
//! metadata, and the guest directory of addresses and nicknames.

use vstd::prelude::*;
use vstd::string::*;
use vstd::multiset::Multiset;
use crate::score::{
    Score, score_wf, score_lt, score_val_eq, sim_frac, density_frac, pick_best,
    meets_threshold, sim_score, density_score, score_less, score_value_eq,
    score_meets_threshold, lemma_pick_best, lemma_score_lt_trans, lemma_score_eq_lt_trans,
    lemma_score_lt_eq_trans, lemma_score_eq_trans,
};
use crate::text::lex_lt;

verus! {

/// A guest's network address, reduced to its numeric value.
pub type Addr = u128;

/// An immutable text record: once added to the pool it never changes.
#[derive(Clone, Debug, PartialEq, Eq)]
pub struct Book {
    pub title: String,
    pub author: String,
    pub description: String,
    pub content: String,
}

/// Mutable per-book state: the contributor, the running checkout counter,
/// and the current holder, if any.
#[derive(Clone, Copy, Debug, PartialEq, Eq)]
pub struct Metadata {
    pub added_by: Addr,
    pub checkouts: u64,
    pub checked_out_by: Option<Addr>,
}

impl Metadata {
    /// Fresh metadata for a newly contributed book.
    pub fn new(added_by: Addr) -> (r: Self)
        ensures
            r == (Metadata { added_by, checkouts: 0, checked_out_by: None }),
    {
        Self { added_by, checkouts: 0, checked_out_by: None }
    }

    /// Whether the book is currently available.
    pub fn is_free(&self) -> (r: bool)
        ensures
            r == self.checked_out_by.is_none(),
    {
        self.checked_out_by.is_none()
    }

    /// Counts one more checkout, saturating at the counter's maximum.
    pub fn register_checkout(&mut self)
        ensures
            final(self).checkouts == if old(self).checkouts + 1 > u64::MAX {
                u64::MAX as int
            } else {
                old(self).checkouts + 1
            },
            final(self).added_by == old(self).added_by,
            final(self).checked_out_by == old(self).checked_out_by,
    {
        self.checkouts = self.checkouts.saturating_add(1);
    }

    /// Records the new holder, handing back the previous one.
    pub fn set_checkout(&mut self, guest: Addr) -> (r: Option<Addr>)
        ensures
            r == old(self).checked_out_by,
            final(self).checked_out_by == Some(guest),
            final(self).added_by == old(self).added_by,
            final(self).checkouts == old(self).checkouts,
    {
        let prev = self.checked_out_by;
        self.checked_out_by = Some(guest);
        prev
    }

    /// Clears the holder, handing back who held the book.
    pub fn set_checkin(&mut self) -> (r: Option<Addr>)
        ensures
            r == old(self).checked_out_by,
            final(self).checked_out_by is None,
            final(self).added_by == old(self).added_by,
            final(self).checkouts == old(self).checkouts,
    {
        let prev = self.checked_out_by;
        self.checked_out_by = None;
        prev
    }
}

/// Why a checkout or checkin was refused.
#[derive(Clone, Copy, Debug, PartialEq, Eq)]
pub enum UpdateEntryError {
    AlreadyCheckedOut(Addr),
    AlreadyCheckedIn,
    GuestMismatch,
}

/// Why a guest registration was refused.
#[derive(Clone, Copy, Debug, PartialEq, Eq)]
pub enum RegisterError {
    AlreadyRegistered,
    NicknameTaken,
}

/// A directory entry binding a network address to a public nickname.
#[derive(Clone, Debug)]
pub struct Guest {
    pub addr: Addr,
    pub nick: String,
}

impl Guest {
    /// Builds a directory entry.
    pub fn new(addr: Addr, nick: &str) -> (r: Self)
        ensures
            r.addr == addr,
            r.nick@ == nick@,
    {
        Self { addr, nick: nick.to_owned() }
    }
}

/// A stable identifier for a book: its insertion index into the pool.
#[derive(Clone, Copy, Debug, PartialEq, Eq, PartialOrd, Ord, Hash)]
pub struct BookID(usize);

impl BookID {
    /// The pool index this identifier stands for.
    pub closed spec fn idx(&self) -> int {
        self.0 as int
    }
}

/// The shared repository.
#[derive(Debug)]
pub struct Library {
    /// Push-only pool of books; an index is a stable mapping to one book.
    book_pool: Vec<Book>,
    /// Per-book metadata, at the same index as the book it describes.
    book_meta: Vec<Metadata>,
    /// Directory entries, sorted ascending by address.
    guests: Vec<Guest>,
    /// All nicknames ever accepted, sorted ascending.
    nicks: Vec<String>,
}

impl Library {
    /// The seeded operator guest's loopback address.
    pub const OPERATOR: Addr = 0x7F00_0001;

    /// The books in the pool, in insertion order.
    pub closed spec fn spec_books(&self) -> Seq<Book> {
        self.book_pool@
    }

    /// The per-book metadata, in pool order.
    pub closed spec fn spec_metas(&self) -> Seq<Metadata> {
        self.book_meta@
    }

    /// The directory, as address/nickname pairs in directory order.
    pub closed spec fn guest_pairs(&self) -> Seq<(Addr, Seq<char>)> {
        self.guests@.map_values(|g: Guest| (g.addr, g.nick@))
    }

    /// The reserved nicknames, in directory order.
    pub closed spec fn spec_nicks(&self) -> Seq<Seq<char>> {
        self.nicks@.map_values(|n: String| n@)
    }

    /// The repository's invariant: one metadata record per pool entry,
    /// the directory sorted strictly by address, the nickname list sorted
    /// strictly, every guest's nickname reserved, and no two guests
    /// sharing a nickname.
    pub open spec fn wf(&self) -> bool {
        &&& self.spec_metas().len() == self.spec_books().len()
        &&& forall|i: int, j: int|
            0 <= i < j < self.guest_pairs().len() ==> (#[trigger] self.guest_pairs()[i]).0 < (
            #[trigger] self.guest_pairs()[j]).0
        &&& forall|i: int, j: int|
            0 <= i < j < self.spec_nicks().len() ==> lex_lt(
                #[trigger] self.spec_nicks()[i],
                #[trigger] self.spec_nicks()[j],
            )
        &&& forall|i: int|
            0 <= i < self.guest_pairs().len() ==> self.spec_nicks().contains(
                (#[trigger] self.guest_pairs()[i]).1,
            )
        &&& forall|i: int, j: int|
            0 <= i < j < self.guest_pairs().len() ==> (#[trigger] self.guest_pairs()[i]).1 != (
            #[trigger] self.guest_pairs()[j]).1
    }

    /// Creates an empty repository seeded with the operator guest.
    pub fn new() -> (r: Self)
        ensures
            r.wf(),
            r.spec_books().len() == 0,
            r.spec_metas().len() == 0,
            r.guest_pairs() =~= seq![(Self::OPERATOR, "cat in the machine"@)],
            r.spec_nicks() =~= seq!["cat in the machine"@],
    {
        let operator = Guest::new(Self::OPERATOR, "cat in the machine");
        let op_nick = operator.nick.clone();
        let mut guests: Vec<Guest> = Vec::new();
        guests.push(operator);
        let mut nicks: Vec<String> = Vec::new();
        nicks.push(op_nick);
        let r = Self { book_pool: Vec::new(), book_meta: Vec::new(), guests, nicks };
        proof {
            assert(r.guest_pairs() =~= seq![(Self::OPERATOR, "cat in the machine"@)]);
            assert(r.spec_nicks() =~= seq!["cat in the machine"@]);
            assert(r.spec_nicks()[0] == (r.guest_pairs()[0]).1);
            assert(forall|i: int|
                0 <= i < r.guest_pairs().len() ==> r.spec_nicks().contains(
                    (#[trigger] r.guest_pairs()[i]).1,
                ));
        }
        r
    }

    /// Whether the pool holds no books.
    pub fn is_empty(&self) -> (r: bool)
        ensures
            r == (self.spec_books().len() == 0),
    {
        self.book_pool.len() == 0
    }

    /// The book an identifier stands for; identifiers are never issued for
    /// books that do not exist.
    pub fn lookup_book_by_id(&self, id: BookID) -> (r: &Book)
        requires
            0 <= id.idx() < self.spec_books().len(),
        ensures
            *r == self.spec_books()[id.idx()],
    {
        &self.book_pool[id.0]
    }

    /// The metadata of a known book.
    pub fn lookup_metadata(&self, id: BookID) -> (r: Metadata)
        requires
            0 <= id.idx() < self.spec_metas().len(),
        ensures
            r == self.spec_metas()[id.idx()],
    {
        self.book_meta[id.0]
    }

    /// Finds the nickname registered for an address, if any.
    pub fn lookup_guest_by_addr(&self, addr: Addr) -> (r: Option<String>)
        requires
            self.wf(),
        ensures
            match r {
                Some(nick) => exists|i: int|
                    0 <= i < self.guest_pairs().len() && #[trigger] self.guest_pairs()[i] == (
                    addr,
                    nick@,
                ),
                None => forall|i: int|
                    0 <= i < self.guest_pairs().len() ==> (#[trigger] self.guest_pairs()[i]).0
                        != addr,
            },
    {
        let mut i: usize = 0;
        while i < self.guests.len()
            invariant
                i <= self.guests.len(),
                self.guest_pairs().len() == self.guests@.len(),
                forall|j: int|
                    0 <= j < i ==> (#[trigger] self.guest_pairs()[j]).0 != addr,
                forall|j: int|
                    0 <= j < self.guests@.len() ==> #[trigger] self.guest_pairs()[j] == (
                        self.guests@[j].addr,
                        self.guests@[j].nick@,
                    ),
            decreases self.guests.len() - i,
        {
            if self.guests[i].addr == addr {
                let nick = self.guests[i].nick.clone();
                proof {
                    assert(self.guest_pairs()[i as int] == (addr, nick@));
                }
                return Some(nick);
            }
            i += 1;
        }
        None
    }

    /// Appends a contributed book to the pool, issuing the next identifier
    /// and fresh metadata naming the contributor.
    pub fn add(&mut self, book: Book, guest: Addr) -> (r: BookID)
        requires
            old(self).wf(),
        ensures
            final(self).wf(),
            r.idx() == old(self).spec_books().len(),
            final(self).spec_books() == old(self).spec_books().push(book),
            final(self).spec_metas() == old(self).spec_metas().push(
                Metadata { added_by: guest, checkouts: 0, checked_out_by: None },
            ),
            final(self).guest_pairs() == old(self).guest_pairs(),
            final(self).spec_nicks() == old(self).spec_nicks(),
    {
        let id = BookID(self.book_pool.len());
        self.book_pool.push(book);
        self.book_meta.push(Metadata::new(guest));
        proof {
            assert(self.guest_pairs() == old(self).guest_pairs());
            assert(self.spec_nicks() == old(self).spec_nicks());
            assert(id.idx() == old(self).spec_books().len());
        }
        id
    }

    /// Seeds a repository with a collection of books contributed by the
    /// operator.
    pub fn with_collection(collection: Vec<Book>) -> (r: Self)
        ensures
            r.wf(),
            r.spec_books() == collection@,
            r.spec_metas().len() == collection@.len(),
            forall|i: int|
                0 <= i < collection@.len() ==> #[trigger] r.spec_metas()[i] == (Metadata {
                    added_by: Self::OPERATOR,
                    checkouts: 0,
                    checked_out_by: None,
                }),
    {
        let mut lib = Self::new();
        let mut rest = collection;
        let ghost all = rest@;
        proof {
            assert(all.take(0) =~= Seq::<Book>::empty());
            assert(all.skip(0) =~= all);
        }
        while rest.len() > 0
            invariant
                lib.wf(),
                rest@.len() <= all.len(),
                lib.spec_books() =~= all.take(all.len() - rest@.len()),
                rest@ =~= all.skip(all.len() - rest@.len()),
                lib.spec_metas().len() == all.len() - rest@.len(),
                forall|j: int|
                    0 <= j < lib.spec_metas().len() ==> #[trigger] lib.spec_metas()[j] == (Metadata {
                        added_by: Self::OPERATOR,
                        checkouts: 0,
                        checked_out_by: None,
                    }),
            decreases rest.len(),
        {
            let ghost done = all.len() - rest@.len();
            let book = rest.remove(0);
            proof {
                assert(book == all.skip(done as int)[0]);
                assert(book == all[done as int]);
                assert(rest@ =~= all.skip(done + 1));
            }
            lib.add(book, Self::OPERATOR);
            proof {
                assert(lib.spec_books() =~= all.take(done + 1));
            }
        }
        proof {
            assert(all.take(all.len() as int) =~= all);
        }
        lib
    }

    /// Marks a book checked out by a guest, if it is free; a second
    /// checkout is refused and names the current holder.
    pub fn checkout(&mut self, book_id: BookID, guest: Addr) -> (r: Result<(), UpdateEntryError>)
        requires
            old(self).wf(),
            0 <= book_id.idx() < old(self).spec_metas().len(),
        ensures
            final(self).wf(),
            checkout_rel(*old(self), *final(self), book_id.idx(), guest, r),
    {
        let i = book_id.0;
        let mut meta = self.book_meta[i];
        let r = match meta.checked_out_by {
            Some(by) => Err(UpdateEntryError::AlreadyCheckedOut(by)),
            None => {
                meta.set_checkout(guest);
                meta.register_checkout();
                self.book_meta.set(i, meta);
                proof {
                    assert(self.spec_metas() =~= old(self).spec_metas().update(
                        book_id.idx(),
                        meta,
                    ));
                }
                Ok(())
            },
        };
        proof {
            assert(self.spec_books() == old(self).spec_books());
            assert(self.guest_pairs() == old(self).guest_pairs());
            assert(self.spec_nicks() == old(self).spec_nicks());
        }
        r
    }

    /// Returns a book checked out by this very guest; a free book or one
    /// held by somebody else is refused.
    pub fn checkin(&mut self, book_id: BookID, guest: Addr) -> (r: Result<(), UpdateEntryError>)
        requires
            old(self).wf(),
            0 <= book_id.idx() < old(self).spec_metas().len(),
        ensures
            final(self).wf(),
            checkin_rel(*old(self), *final(self), book_id.idx(), guest, r),
    {
        let i = book_id.0;
        let mut meta = self.book_meta[i];
        let r = match meta.checked_out_by {
            Some(by) => {
                if by == guest {
                    meta.set_checkin();
                    self.book_meta.set(i, meta);
                    proof {
                        assert(self.spec_metas() =~= old(self).spec_metas().update(
                            book_id.idx(),
                            meta,
                        ));
                    }
                    Ok(())
                } else {
                    Err(UpdateEntryError::GuestMismatch)
                }
            },
            None => Err(UpdateEntryError::AlreadyCheckedIn),
        };
        proof {
            assert(self.spec_books() == old(self).spec_books());
            assert(self.guest_pairs() == old(self).guest_pairs());
            assert(self.spec_nicks() == old(self).spec_nicks());
        }
        r
    }

    /// The books currently checked out by a guest, in pool order.
    pub fn lookup_checkouts_by_guest(&self, guest: Addr) -> (r: Vec<(BookID, Metadata)>)
        requires
            self.wf(),
        ensures
            forall|k: int|
                0 <= k < r@.len() ==> {
                    let id = (#[trigger] r@[k]).0.idx();
                    &&& 0 <= id < self.spec_metas().len()
                    &&& self.spec_metas()[id].checked_out_by == Some(guest)
                    &&& r@[k].1 == self.spec_metas()[id]
                },
            forall|k1: int, k2: int|
                0 <= k1 < k2 < r@.len() ==> (#[trigger] r@[k1]).0.idx() < (
                #[trigger] r@[k2]).0.idx(),
            forall|id: int|
                0 <= id < self.spec_metas().len() && (#[trigger] self.spec_metas()[id]).checked_out_by
                    == Some(guest) ==> exists|k: int| 0 <= k < r@.len() && (#[trigger] r@[k]).0.idx() == id,
    {
        let mut found: Vec<(BookID, Metadata)> = Vec::new();
        let mut i: usize = 0;
        while i < self.book_meta.len()
            invariant
                i <= self.book_meta.len(),
                self.spec_metas().len() == self.book_meta@.len(),
                forall|k: int|
                    0 <= k < found@.len() ==> {
                        let id = (#[trigger] found@[k]).0.idx();
                        &&& 0 <= id < i
                        &&& self.spec_metas()[id].checked_out_by == Some(guest)
                        &&& found@[k].1 == self.spec_metas()[id]
                    },
                forall|k1: int, k2: int|
                    0 <= k1 < k2 < found@.len() ==> (#[trigger] found@[k1]).0.idx() < (
                    #[trigger] found@[k2]).0.idx(),
                forall|id: int|
                    0 <= id < i && (#[trigger] self.spec_metas()[id]).checked_out_by == Some(guest)
                        ==> exists|k: int|
                        0 <= k < found@.len() && (#[trigger] found@[k]).0.idx() == id,
            decreases self.book_meta.len() - i,
        {
            let meta = self.book_meta[i];
            match meta.checked_out_by {
                Some(by) => {
                    if by == guest {
                        let ghost pre = found@;
                        found.push((BookID(i), meta));
                        proof {
                            assert(forall|k: int| 0 <= k < pre.len() ==> found@[k] == pre[k]);
                            assert((found@[found@.len() - 1]).0.idx() == i as int);
                        }
                    }
                },
                None => {},
            }
            i += 1;
        }
        found
    }
}

/// Exactly what a registration call does. A taken nickname is refused
/// before the directory is touched. A fresh nickname is reserved at once,
/// and stays reserved even when the address then turns out to be registered
/// already; only an address that is new gains a directory entry.
pub open spec fn register_rel(
    pre: Library,
    post: Library,
    addr: Addr,
    nick: Seq<char>,
    r: Result<String, RegisterError>,
) -> bool {
    &&& post.spec_books() == pre.spec_books()
    &&& post.spec_metas() == pre.spec_metas()
    &&& if pre.spec_nicks().contains(nick) {
        &&& r == Err::<String, RegisterError>(RegisterError::NicknameTaken)
        &&& post.guest_pairs() == pre.guest_pairs()
        &&& post.spec_nicks() == pre.spec_nicks()
    } else if exists|i: int|
        0 <= i < pre.guest_pairs().len() && (#[trigger] pre.guest_pairs()[i]).0 == addr {
        &&& r == Err::<String, RegisterError>(RegisterError::AlreadyRegistered)
        &&& post.guest_pairs() == pre.guest_pairs()
        &&& exists|k: int|
            0 <= k <= pre.spec_nicks().len() && post.spec_nicks() == pre.spec_nicks().insert(
                k,
                nick,
            )
    } else {
        &&& match r {
            Ok(n) => n@ == nick,
            Err(_) => false,
        }
        &&& exists|k: int|
            0 <= k <= pre.spec_nicks().len() && post.spec_nicks() == pre.spec_nicks().insert(
                k,
                nick,
            )
        &&& exists|k: int|
            0 <= k <= pre.guest_pairs().len() && post.guest_pairs() == pre.guest_pairs().insert(
                k,
                (addr, nick),
            )
    }
}


/// The number of leading entries that are lexicographically below the
/// target: where the target belongs in a sorted nickname list.
fn lower_bound_nick(v: &Vec<String>, target: &str) -> (r: usize)
    ensures
        r <= v@.len(),
        forall|j: int| 0 <= j < r ==> lex_lt((#[trigger] v@[j])@, target@),
        r < v@.len() ==> !lex_lt(v@[r as int]@, target@),
{
    let mut i: usize = 0;
    while i < v.len() && matches!(
        crate::text::str_compare(v[i].as_str(), target),
        crate::text::Cmp::Lt
    )
        invariant
            i <= v@.len(),
            forall|j: int| 0 <= j < i ==> lex_lt((#[trigger] v@[j])@, target@),
        decreases v@.len() - i,
    {
        i += 1;
    }
    i
}

/// The number of leading directory entries whose address is below the
/// target: where the target belongs in the sorted directory.
fn lower_bound_addr(v: &Vec<Guest>, target: Addr) -> (r: usize)
    ensures
        r <= v@.len(),
        forall|j: int| 0 <= j < r ==> (#[trigger] v@[j]).addr < target,
        r < v@.len() ==> v@[r as int].addr >= target,
{
    let mut i: usize = 0;
    while i < v.len() && v[i].addr < target
        invariant
            i <= v@.len(),
            forall|j: int| 0 <= j < i ==> (#[trigger] v@[j]).addr < target,
        decreases v@.len() - i,
    {
        i += 1;
    }
    i
}

impl Library {
    /// Registers a nickname for an address: a taken nickname is refused, a
    /// known address keeps its entry, and otherwise the pair joins the
    /// directory, both sorted collections updated together.
    pub fn register_guest(&mut self, addr: Addr, nick: String) -> (r: Result<
        String,
        RegisterError,
    >)
        requires
            old(self).wf(),
        ensures
            final(self).wf(),
            register_rel(*old(self), *final(self), addr, nick@, r),
    {
        let ghost pre_nicks = self.spec_nicks();
        let ghost pre_pairs = self.guest_pairs();
        let n_len = self.nicks.len();
        // find where the nickname belongs in the sorted list
        let k = lower_bound_nick(&self.nicks, nick.as_str());
        proof {
            assert(forall|j: int|
                0 <= j < k ==> lex_lt(#[trigger] pre_nicks[j], nick@));
        }
        if k < n_len {
            let same = crate::text::str_eq(self.nicks[k].as_str(), nick.as_str());
            if same {
                proof {
                    assert(pre_nicks[k as int] == nick@);
                    assert(pre_nicks.contains(nick@));
                }
                return Err(RegisterError::NicknameTaken);
            }
        }
        proof {
            if k < pre_nicks.len() {
                crate::text::lemma_lex_trichotomy(pre_nicks[k as int], nick@);
                assert(lex_lt(nick@, pre_nicks[k as int]));
            }
            assert forall|j: int| 0 <= j < pre_nicks.len() implies pre_nicks[j] != nick@ by {
                crate::text::lemma_lex_trichotomy(pre_nicks[j], nick@);
                if j > k {
                    crate::text::lemma_lex_transitive(
                        nick@,
                        pre_nicks[k as int],
                        pre_nicks[j],
                    );
                }
            }
            assert(!pre_nicks.contains(nick@));
        }
        // reserve the nickname
        let nick_copy = nick.clone();
        self.nicks.insert(k, nick_copy);
        proof {
            assert(self.spec_nicks() =~= pre_nicks.insert(k as int, nick@)) by {
                assert forall|j: int| 0 <= j < self.spec_nicks().len() implies self.spec_nicks()[j]
                    == pre_nicks.insert(k as int, nick@)[j] by {
                    if j < k {
                        assert(self.nicks@[j] == old(self).nicks@[j]);
                    } else if j == k {
                    } else {
                        assert(self.nicks@[j] == old(self).nicks@[j - 1]);
                    }
                }
            }
            assert(self.guest_pairs() == pre_pairs);
            // the nickname list stays sorted
            assert forall|i: int, j: int|
                0 <= i < j < self.spec_nicks().len() implies lex_lt(
                #[trigger] self.spec_nicks()[i],
                #[trigger] self.spec_nicks()[j],
            ) by {
                let s = self.spec_nicks();
                if i == k && j > k {
                    assert(lex_lt(nick@, pre_nicks[k as int]));
                    if j - 1 > k {
                        crate::text::lemma_lex_transitive(
                            nick@,
                            pre_nicks[k as int],
                            pre_nicks[j - 1],
                        );
                    }
                }
            }
            // every guest's nickname is still reserved
            assert forall|i: int| 0 <= i < self.guest_pairs().len() implies self.spec_nicks()
                .contains((#[trigger] self.guest_pairs()[i]).1) by {
                assert(pre_nicks.contains(pre_pairs[i].1));
                let j = choose|j: int|
                    0 <= j < pre_nicks.len() && pre_nicks[j] == pre_pairs[i].1;
                if j < k {
                    assert(self.spec_nicks()[j] == pre_nicks[j]);
                } else {
                    assert(self.spec_nicks()[j + 1] == pre_nicks[j]);
                }
            }
        }
        let ghost mid = *self;
        // associate the address with the nickname
        let g_len = self.guests.len();
        let p = lower_bound_addr(&self.guests, addr);
        proof {
            assert(forall|j: int|
                0 <= j < p ==> (#[trigger] pre_pairs[j]).0 < addr);
        }
        if p < g_len {
            if self.guests[p].addr == addr {
                proof {
                    assert((self.guest_pairs()[p as int]).0 == addr);
                }
                return Err(RegisterError::AlreadyRegistered);
            }
        }
        proof {
            assert forall|j: int| 0 <= j < pre_pairs.len() implies (
            #[trigger] pre_pairs[j]).0 != addr by {
                if j >= p {
                    assert(addr < pre_pairs[p as int].0);
                    if j > p {
                        assert(pre_pairs[p as int].0 < pre_pairs[j].0);
                    }
                }
            }
        }
        let guest = Guest { addr, nick: nick.clone() };
        self.guests.insert(p, guest);
        proof {
            assert(self.guest_pairs() =~= pre_pairs.insert(p as int, (addr, nick@))) by {
                assert forall|j: int| 0 <= j < self.guest_pairs().len() implies self.guest_pairs()[j]
                    == pre_pairs.insert(p as int, (addr, nick@))[j] by {
                    if j < p {
                        assert(self.guests@[j] == mid.guests@[j]);
                    } else if j == p {
                    } else {
                        assert(self.guests@[j] == mid.guests@[j - 1]);
                    }
                }
            }
            assert(self.spec_nicks() == mid.spec_nicks());
            let s = self.guest_pairs();
            // the directory stays sorted by address
            assert forall|i: int, j: int| 0 <= i < j < s.len() implies (#[trigger] s[i]).0 < (
            #[trigger] s[j]).0 by {
                if i == p && j > p {
                    assert(addr < pre_pairs[p as int].0);
                }
            }
            // no two guests share a nickname
            assert forall|i: int, j: int| 0 <= i < j < s.len() implies (#[trigger] s[i]).1 != (
            #[trigger] s[j]).1 by {
                if i == p {
                    assert(pre_nicks.contains(pre_pairs[j - 1].1));
                    assert(pre_pairs[j - 1].1 != nick@);
                } else if j == p {
                    assert(pre_nicks.contains(pre_pairs[i].1));
                    assert(pre_pairs[i].1 != nick@);
                }
            }
            // every guest's nickname is reserved
            assert forall|i: int| 0 <= i < s.len() implies self.spec_nicks().contains(
                (#[trigger] s[i]).1,
            ) by {
                if i == p {
                    assert(self.spec_nicks()[k as int] == nick@);
                } else {
                    let i0 = if i < p {
                        i
                    } else {
                        i - 1
                    };
                    assert(mid.spec_nicks().contains(mid.guest_pairs()[i0].1));
                }
            }
        }
        Ok(nick)
    }
}

/// Exactly what a checkout call does: a free book gains this guest as its
/// holder and counts one more checkout; a held book is left unchanged and
/// the call reports its holder. Nothing else changes.
pub open spec fn checkout_rel(
    pre: Library,
    post: Library,
    id: int,
    guest: Addr,
    r: Result<(), UpdateEntryError>,
) -> bool {
    &&& post.spec_books() == pre.spec_books()
    &&& post.guest_pairs() == pre.guest_pairs()
    &&& post.spec_nicks() == pre.spec_nicks()
    &&& match pre.spec_metas()[id].checked_out_by {
        Some(by) => {
            &&& r == Err::<(), UpdateEntryError>(UpdateEntryError::AlreadyCheckedOut(by))
            &&& post.spec_metas() == pre.spec_metas()
        },
        None => {
            &&& r == Ok::<(), UpdateEntryError>(())
            &&& post.spec_metas() == pre.spec_metas().update(
                id,
                Metadata {
                    added_by: pre.spec_metas()[id].added_by,
                    checkouts: if pre.spec_metas()[id].checkouts + 1 > u64::MAX {
                        u64::MAX
                    } else {
                        (pre.spec_metas()[id].checkouts + 1) as u64
                    },
                    checked_out_by: Some(guest),
                },
            )
        },
    }
}

/// Exactly what a checkin call does: a book held by this guest becomes
/// free, its counter untouched; a free book reports `AlreadyCheckedIn`, one
/// held by another guest reports `GuestMismatch`, both unchanged.
pub open spec fn checkin_rel(
    pre: Library,
    post: Library,
    id: int,
    guest: Addr,
    r: Result<(), UpdateEntryError>,
) -> bool {
    &&& post.spec_books() == pre.spec_books()
    &&& post.guest_pairs() == pre.guest_pairs()
    &&& post.spec_nicks() == pre.spec_nicks()
    &&& match pre.spec_metas()[id].checked_out_by {
        Some(by) => if by == guest {
            &&& r == Ok::<(), UpdateEntryError>(())
            &&& post.spec_metas() == pre.spec_metas().update(
                id,
                Metadata {
                    added_by: pre.spec_metas()[id].added_by,
                    checkouts: pre.spec_metas()[id].checkouts,
                    checked_out_by: None,
                },
            )
        } else {
            &&& r == Err::<(), UpdateEntryError>(UpdateEntryError::GuestMismatch)
            &&& post.spec_metas() == pre.spec_metas()
        },
        None => {
            &&& r == Err::<(), UpdateEntryError>(UpdateEntryError::AlreadyCheckedIn)
            &&& post.spec_metas() == pre.spec_metas()
        },
    }
}


/// The byte length of a text under its UTF-8 encoding.
pub open spec fn str_bytes_len(s: Seq<char>) -> nat {
    vstd::utf8::encode_utf8(s).len()
}

/// The eight metric scores of a book against a query: whole-field
/// similarity and containment density, over title, author, description and
/// content, in that order.
pub open spec fn book_metrics(q: Seq<char>, b: Book) -> Seq<Score> {
    seq![
        sim_frac(q, b.title@),
        density_frac(q, b.title@, str_bytes_len(b.title@)),
        sim_frac(q, b.author@),
        density_frac(q, b.author@, str_bytes_len(b.author@)),
        sim_frac(q, b.description@),
        density_frac(q, b.description@, str_bytes_len(b.description@)),
        sim_frac(q, b.content@),
        density_frac(q, b.content@, str_bytes_len(b.content@)),
    ]
}

/// A book's relevance score: exactly one for the empty query, otherwise
/// the best of the eight metrics.
pub open spec fn book_score(q: Seq<char>, b: Book) -> Score {
    if q.len() == 0 {
        Score { num: 1, den: 1 }
    } else {
        pick_best(book_metrics(q, b))
    }
}

/// Whether a book reaches the acceptance threshold for a query.
pub open spec fn book_qualifies(q: Seq<char>, b: Book) -> bool {
    meets_threshold(book_score(q, b))
}

/// Which of two search entries is listed first: the strictly better score
/// value, and on equal values the earlier book.
pub open spec fn entry_before(a: (Score, BookID, Metadata), b: (Score, BookID, Metadata)) -> bool {
    score_lt(b.0, a.0) || (score_val_eq(a.0, b.0) && a.1.idx() < b.1.idx())
}

/// The pool indices below `n` whose books qualify for the query, ascending.
pub open spec fn qualifying_ids_upto(lib: Library, q: Seq<char>, n: int) -> Seq<int> {
    Seq::new(n as nat, |i: int| i).filter(|i: int| book_qualifies(q, lib.spec_books()[i]))
}

/// The pool indices of all the books that qualify for the query, ascending.
pub open spec fn qualifying_ids(lib: Library, q: Seq<char>) -> Seq<int> {
    qualifying_ids_upto(lib, q, lib.spec_books().len() as int)
}

/// What a search returns: one entry for each qualifying book, carrying its
/// exact score and current metadata, ordered by descending score value with
/// ties in pool order.
pub open spec fn search_post(
    lib: Library,
    q: Seq<char>,
    out: Seq<(Score, BookID, Metadata)>,
) -> bool {
    &&& forall|k: int|
        0 <= k < out.len() ==> {
            let id = (#[trigger] out[k]).1.idx();
            &&& 0 <= id < lib.spec_books().len()
            &&& out[k].0 == book_score(q, lib.spec_books()[id])
            &&& score_wf(out[k].0)
            &&& out[k].2 == lib.spec_metas()[id]
            &&& book_qualifies(q, lib.spec_books()[id])
        }
    &&& out.map_values(|e: (Score, BookID, Metadata)| e.1.idx()).to_multiset()
        == qualifying_ids(lib, q).to_multiset()
    &&& forall|k1: int, k2: int|
        0 <= k1 < k2 < out.len() ==> entry_before(#[trigger] out[k1], #[trigger] out[k2])
}

/// The listing order is transitive.
proof fn lemma_entry_before_trans(
    a: (Score, BookID, Metadata),
    b: (Score, BookID, Metadata),
    c: (Score, BookID, Metadata),
)
    requires
        score_wf(a.0),
        score_wf(b.0),
        score_wf(c.0),
        entry_before(a, b),
        entry_before(b, c),
    ensures
        entry_before(a, c),
{
    if score_lt(b.0, a.0) && score_lt(c.0, b.0) {
        lemma_score_lt_trans(c.0, b.0, a.0);
    } else if score_lt(b.0, a.0) && score_val_eq(b.0, c.0) {
        lemma_score_eq_lt_trans(c.0, b.0, a.0);
    } else if score_val_eq(a.0, b.0) && score_lt(c.0, b.0) {
        lemma_score_lt_eq_trans(c.0, b.0, a.0);
    } else {
        lemma_score_eq_trans(a.0, b.0, c.0);
    }
}

/// Two entries for different books are always ordered one way or the
/// other.
proof fn lemma_entry_before_total(a: (Score, BookID, Metadata), b: (Score, BookID, Metadata))
    requires
        score_wf(a.0),
        score_wf(b.0),
        a.1.idx() != b.1.idx(),
    ensures
        entry_before(a, b) || entry_before(b, a),
{
    assert(score_lt(a.0, b.0) || score_lt(b.0, a.0) || score_val_eq(a.0, b.0));
}

/// Inserting anywhere into a sequence adds one occurrence to its multiset.
proof fn lemma_insert_to_multiset<A>(s: Seq<A>, p: int, x: A)
    requires
        0 <= p <= s.len(),
    ensures
        s.insert(p, x).to_multiset() =~= s.to_multiset().insert(x),
{
    broadcast use vstd::seq_lib::group_to_multiset_ensures;
    broadcast use vstd::multiset::group_multiset_axioms;

    assert(s.insert(p, x) =~= s.take(p) + (seq![x] + s.skip(p)));
    vstd::seq_lib::lemma_multiset_commutative(s.take(p), seq![x] + s.skip(p));
    vstd::seq_lib::lemma_multiset_commutative(seq![x], s.skip(p));
    assert(s =~= s.take(p) + s.skip(p));
    vstd::seq_lib::lemma_multiset_commutative(s.take(p), s.skip(p));
    assert(seq![x] =~= Seq::<A>::empty().push(x));
    assert(Seq::<A>::empty().push(x).to_multiset() =~= Seq::<A>::empty().to_multiset().insert(x));
    assert forall|a: A| true implies Seq::<A>::empty().to_multiset().count(a) == 0 by {
        assert(!Seq::<A>::empty().contains(a));
    }
    assert(Seq::<A>::empty().to_multiset() =~= Multiset::<A>::empty());
}

/// Keeps the better of the running best and the next metric.
fn better(best: Score, cur: Score) -> (r: Score)
    ensures
        r == if score_lt(best, cur) {
            cur
        } else {
            best
        },
{
    if score_less(&best, &cur) {
        cur
    } else {
        best
    }
}

/// Scores one book against a query, handing back the score only when it
/// reaches the acceptance threshold.
fn score_book(query: &str, book: &Book) -> (r: Option<Score>)
    ensures
        match r {
            Some(s) => s == book_score(query@, *book) && score_wf(s) && book_qualifies(
                query@,
                *book,
            ),
            None => !book_qualifies(query@, *book),
        },
{
    let ghost ms = book_metrics(query@, *book);
    if query.unicode_len() == 0 {
        return Some(Score { num: 1, den: 1 });
    }
    let m0 = sim_score(query, book.title.as_str());
    let m1 = density_score(query, book.title.as_str());
    let m2 = sim_score(query, book.author.as_str());
    let m3 = density_score(query, book.author.as_str());
    let m4 = sim_score(query, book.description.as_str());
    let m5 = density_score(query, book.description.as_str());
    let m6 = sim_score(query, book.content.as_str());
    let m7 = density_score(query, book.content.as_str());
    proof {
        assert(ms =~= seq![m0, m1, m2, m3, m4, m5, m6, m7]);
    }
    let mut best = m0;
    proof {
        assert(ms.take(1) =~= seq![m0]);
        assert(pick_best(ms.take(1)) == m0);
    }
    best = better(best, m1);
    proof {
        assert(ms.take(2).drop_last() =~= ms.take(1));
        assert(ms.take(2).last() == m1);
        assert(best == pick_best(ms.take(2)));
    }
    best = better(best, m2);
    proof {
        assert(ms.take(3).drop_last() =~= ms.take(2));
        assert(ms.take(3).last() == m2);
        assert(best == pick_best(ms.take(3)));
    }
    best = better(best, m3);
    proof {
        assert(ms.take(4).drop_last() =~= ms.take(3));
        assert(ms.take(4).last() == m3);
        assert(best == pick_best(ms.take(4)));
    }
    best = better(best, m4);
    proof {
        assert(ms.take(5).drop_last() =~= ms.take(4));
        assert(ms.take(5).last() == m4);
        assert(best == pick_best(ms.take(5)));
    }
    best = better(best, m5);
    proof {
        assert(ms.take(6).drop_last() =~= ms.take(5));
        assert(ms.take(6).last() == m5);
        assert(best == pick_best(ms.take(6)));
    }
    best = better(best, m6);
    proof {
        assert(ms.take(7).drop_last() =~= ms.take(6));
        assert(ms.take(7).last() == m6);
        assert(best == pick_best(ms.take(7)));
    }
    best = better(best, m7);
    proof {
        assert(ms.take(8).drop_last() =~= ms.take(7));
        assert(ms.take(8).last() == m7);
        assert(ms.take(8) =~= ms);
        assert(best == pick_best(ms));
    }
    if score_meets_threshold(&best) {
        Some(best)
    } else {
        None
    }
}

/// Whether entry `a` is listed before entry `b`.
fn entry_before_exec(a: &(Score, BookID, Metadata), b: &(Score, BookID, Metadata)) -> (r: bool)
    ensures
        r == entry_before(*a, *b),
{
    if score_less(&b.0, &a.0) {
        true
    } else if score_value_eq(&a.0, &b.0) {
        (a.1).0 < (b.1).0
    } else {
        false
    }
}

impl Library {
    /// Scores every book against the query and lists the qualifying ones,
    /// best first, equal score values in pool order.
    pub fn search(&self, query: &str) -> (r: Vec<(Score, BookID, Metadata)>)
        requires
            self.wf(),
        ensures
            search_post(*self, query@, r@),
    {
        let mut found: Vec<(Score, BookID, Metadata)> = Vec::new();
        let mut idx: usize = 0;
        let n = self.book_pool.len();
        proof {
            reveal(Seq::filter);
            assert(Seq::new(0, |i: int| i) =~= Seq::<int>::empty());
            assert(qualifying_ids_upto(*self, query@, 0) =~= Seq::<int>::empty());
            assert(found@.map_values(|e: (Score, BookID, Metadata)| e.1.idx())
                =~= Seq::<int>::empty());
            assert(Seq::<int>::empty().to_multiset() =~= Seq::<int>::empty().to_multiset());
        }
        while idx < n
            invariant
                idx <= n,
                n == self.spec_books().len(),
                self.wf(),
                forall|k: int|
                    0 <= k < found@.len() ==> {
                        let id = (#[trigger] found@[k]).1.idx();
                        &&& 0 <= id < idx
                        &&& found@[k].0 == book_score(query@, self.spec_books()[id])
                        &&& score_wf(found@[k].0)
                        &&& found@[k].2 == self.spec_metas()[id]
                        &&& book_qualifies(query@, self.spec_books()[id])
                    },
                found@.map_values(|e: (Score, BookID, Metadata)| e.1.idx()).to_multiset()
                    == qualifying_ids_upto(*self, query@, idx as int).to_multiset(),
                forall|k1: int, k2: int|
                    0 <= k1 < k2 < found@.len() ==> entry_before(
                        #[trigger] found@[k1],
                        #[trigger] found@[k2],
                    ),
            decreases n - idx,
        {
            let ghost pre = found@;
            let ghost pre_ids = pre.map_values(|e: (Score, BookID, Metadata)| e.1.idx());
            let ghost base_next = Seq::new((idx + 1) as nat, |i: int| i);
            proof {
                reveal(Seq::filter);
                assert(base_next.drop_last() =~= Seq::new(idx as nat, |i: int| i));
                assert(base_next.last() == idx as int);
            }
            let maybe = score_book(query, &self.book_pool[idx]);
            match maybe {
                None => {
                    proof {
                        assert(qualifying_ids_upto(*self, query@, idx + 1)
                            == qualifying_ids_upto(*self, query@, idx as int));
                    }
                },
                Some(sc) => {
                    let e = (sc, BookID(idx), self.book_meta[idx]);
                    proof {
                        assert(e.1.idx() == idx as int);
                    }
                    let mut pos: usize = 0;
                    while pos < found.len() && entry_before_exec(&found[pos], &e)
                        invariant
                            pos <= found.len(),
                            found@ == pre,
                            e.1.idx() == idx as int,
                            forall|j: int|
                                0 <= j < pos ==> entry_before(#[trigger] found@[j], e),
                        decreases found.len() - pos,
                    {
                        pos += 1;
                    }
                    proof {
                        if pos < pre.len() {
                            lemma_entry_before_total(pre[pos as int], e);
                            assert(entry_before(e, pre[pos as int]));
                        }
                        assert forall|j: int| pos <= j < pre.len() implies entry_before(
                            e,
                            #[trigger] pre[j],
                        ) by {
                            if j > pos {
                                lemma_entry_before_trans(e, pre[pos as int], pre[j]);
                            }
                        }
                    }
                    found.insert(pos, e);
                    proof {
                        assert(found@ =~= pre.insert(pos as int, e));
                        let new_ids = found@.map_values(
                            |x: (Score, BookID, Metadata)| x.1.idx(),
                        );
                        assert(new_ids =~= pre_ids.insert(pos as int, idx as int)) by {
                            assert forall|j: int| 0 <= j < new_ids.len() implies new_ids[j]
                                == pre_ids.insert(pos as int, idx as int)[j] by {
                                if j < pos {
                                    assert(found@[j] == pre[j]);
                                } else if j == pos {
                                } else {
                                    assert(found@[j] == pre[j - 1]);
                                }
                            }
                        }
                        lemma_insert_to_multiset(pre_ids, pos as int, idx as int);
                        assert(qualifying_ids_upto(*self, query@, idx + 1)
                            == qualifying_ids_upto(*self, query@, idx as int).push(idx as int));
                        broadcast use vstd::seq_lib::group_to_multiset_ensures;

                        assert(qualifying_ids_upto(*self, query@, idx + 1).to_multiset()
                            =~= qualifying_ids_upto(*self, query@, idx as int).to_multiset()
                            .insert(idx as int));
                        // order around the insertion point
                        assert forall|k1: int, k2: int|
                            0 <= k1 < k2 < found@.len() implies entry_before(
                            #[trigger] found@[k1],
                            #[trigger] found@[k2],
                        ) by {
                            if k2 < pos {
                                assert(found@[k1] == pre[k1] && found@[k2] == pre[k2]);
                            } else if k1 < pos && k2 == pos {
                                assert(found@[k1] == pre[k1]);
                            } else if k1 < pos && k2 > pos {
                                assert(found@[k1] == pre[k1] && found@[k2] == pre[k2 - 1]);
                            } else if k1 == pos {
                                assert(found@[k2] == pre[k2 - 1]);
                            } else {
                                assert(found@[k1] == pre[k1 - 1] && found@[k2] == pre[k2 - 1]);
                            }
                        }
                    }
                },
            }
            idx += 1;
        }
        proof {
            assert(qualifying_ids_upto(*self, query@, n as int) == qualifying_ids(*self, query@));
        }
        found
    }
}


/// A text's UTF-8 encoding is at least as long as its character count.
pub proof fn lemma_bytes_at_least_chars(s: Seq<char>)
    ensures
        str_bytes_len(s) >= s.len(),
    decreases s.len(),
{
    if s.len() == 0 {
    } else {
        lemma_bytes_at_least_chars(s.drop_first());
        assert(vstd::utf8::encode_scalar(s[0] as u32).len() >= 1);
    }
}

proof fn lemma_occ_self(q: Seq<char>)
    requires
        q.len() >= 1,
    ensures
        crate::text::occ_count(q, q) == 1,
{
    assert(q.take(q.len() as int) =~= q);
    assert(q.skip(q.len() as int).len() == 0);
    assert(crate::text::occ_count(q.skip(q.len() as int), q) == 0);
    assert(crate::text::occ_count(q, q) == 1 + crate::text::occ_count(
        q.skip(q.len() as int),
        q,
    ));
}

proof fn lemma_book_metrics_wf(q: Seq<char>, b: Book)
    requires
        q.len() <= usize::MAX,
        str_bytes_len(b.title@) <= usize::MAX,
        str_bytes_len(b.author@) <= usize::MAX,
        str_bytes_len(b.description@) <= usize::MAX,
        str_bytes_len(b.content@) <= usize::MAX,
    ensures
        forall|i: int| 0 <= i < book_metrics(q, b).len() ==> score_wf(
            #[trigger] book_metrics(q, b)[i],
        ),
{
    lemma_bytes_at_least_chars(b.title@);
    lemma_bytes_at_least_chars(b.author@);
    lemma_bytes_at_least_chars(b.description@);
    lemma_bytes_at_least_chars(b.content@);
    crate::score::lemma_sim_frac_wf(q, b.title@);
    crate::score::lemma_density_frac_wf(q, b.title@, str_bytes_len(b.title@));
    crate::score::lemma_sim_frac_wf(q, b.author@);
    crate::score::lemma_density_frac_wf(q, b.author@, str_bytes_len(b.author@));
    crate::score::lemma_sim_frac_wf(q, b.description@);
    crate::score::lemma_density_frac_wf(q, b.description@, str_bytes_len(b.description@));
    crate::score::lemma_sim_frac_wf(q, b.content@);
    crate::score::lemma_density_frac_wf(q, b.content@, str_bytes_len(b.content@));
}

/// Search scoring: a query that equals one of a book's text fields, read
/// whole, reaches the acceptance threshold — the query's containment
/// already accounts for the whole field.
pub proof fn lemma_exact_field_query_qualifies(q: Seq<char>, b: Book)
    requires
        q.len() >= 1,
        q == b.title@ || q == b.author@ || q == b.description@ || q == b.content@,
        str_bytes_len(b.title@) <= usize::MAX,
        str_bytes_len(b.author@) <= usize::MAX,
        str_bytes_len(b.description@) <= usize::MAX,
        str_bytes_len(b.content@) <= usize::MAX,
    ensures
        book_qualifies(q, b),
{
    let ms = book_metrics(q, b);
    let fld: Seq<char> = if q == b.title@ {
        b.title@
    } else if q == b.author@ {
        b.author@
    } else if q == b.description@ {
        b.description@
    } else {
        b.content@
    };
    let fbytes = str_bytes_len(fld);
    let d = density_frac(q, fld, fbytes);
    lemma_bytes_at_least_chars(fld);
    lemma_occ_self(q);
    assert(crate::text::occ_count(fld, q) == 1);
    assert(d == (Score { num: fbytes as usize, den: q.len() as usize }));
    assert(meets_threshold(d));
    assert(ms.contains(d)) by {
        if q == b.title@ {
            assert(ms[1] == d);
        } else if q == b.author@ {
            assert(ms[3] == d);
        } else if q == b.description@ {
            assert(ms[5] == d);
        } else {
            assert(ms[7] == d);
        }
    }
    lemma_book_metrics_wf(q, b);
    crate::score::lemma_pick_best(ms);
    let j = choose|j: int| 0 <= j < ms.len() && ms[j] == d;
    assert(!score_lt(pick_best(ms), ms[j]));
    crate::score::lemma_threshold_transfer(d, pick_best(ms));
    assert(book_score(q, b) == pick_best(ms));
}

/// BookID stability: the pool is only ever extended, so an identifier
/// issued by `add` keeps resolving to the very book passed to that call,
/// whatever operations follow.
pub proof fn lemma_book_id_stable(pre: Library, post: Library, id: int)
    requires
        pre.spec_books().is_prefix_of(post.spec_books()),
        0 <= id < pre.spec_books().len(),
    ensures
        post.spec_books()[id] == pre.spec_books()[id],
{
}

/// Checkout exclusivity: at most one guest holds a book at a time, and a
/// checkout of a held book is always refused with the holder's identity,
/// never silently granted.
pub proof fn lemma_checkout_exclusive(
    pre: Library,
    post: Library,
    id: int,
    guest: Addr,
    r: Result<(), UpdateEntryError>,
)
    requires
        checkout_rel(pre, post, id, guest, r),
        0 <= id < pre.spec_metas().len(),
    ensures
        pre.spec_metas()[id].checked_out_by matches Some(by) ==> r == Err::<
            (),
            UpdateEntryError,
        >(UpdateEntryError::AlreadyCheckedOut(by)) && post.spec_metas() == pre.spec_metas(),
        r == Ok::<(), UpdateEntryError>(()) ==> pre.spec_metas()[id].checked_out_by is None
            && post.spec_metas()[id].checked_out_by == Some(guest),
{
}

/// Checkin correctness: a checkin succeeds exactly for the guest holding
/// the book; a free book reports `AlreadyCheckedIn` and a book held by
/// another guest reports `GuestMismatch`. Counters never move on checkin.
pub proof fn lemma_checkin_correct(
    pre: Library,
    post: Library,
    id: int,
    guest: Addr,
    r: Result<(), UpdateEntryError>,
)
    requires
        checkin_rel(pre, post, id, guest, r),
        0 <= id < pre.spec_metas().len(),
    ensures
        (r == Ok::<(), UpdateEntryError>(())) <==> pre.spec_metas()[id].checked_out_by == Some(
            guest,
        ),
        pre.spec_metas()[id].checked_out_by is None ==> r == Err::<(), UpdateEntryError>(
            UpdateEntryError::AlreadyCheckedIn,
        ),
        pre.spec_metas()[id].checked_out_by matches Some(by) && by != guest ==> r == Err::<
            (),
            UpdateEntryError,
        >(UpdateEntryError::GuestMismatch),
        forall|i: int|
            0 <= i < pre.spec_metas().len() ==> (#[trigger] post.spec_metas()[i]).checkouts
                == pre.spec_metas()[i].checkouts,
{
}

/// Checkout counter monotonicity: a checkout never lowers any counter, it
/// raises only the chosen book's counter, only on success, and saturates
/// instead of overflowing.
pub proof fn lemma_checkout_counter_monotonic(
    pre: Library,
    post: Library,
    id: int,
    guest: Addr,
    r: Result<(), UpdateEntryError>,
)
    requires
        checkout_rel(pre, post, id, guest, r),
        0 <= id < pre.spec_metas().len(),
    ensures
        forall|i: int|
            0 <= i < pre.spec_metas().len() ==> (#[trigger] post.spec_metas()[i]).checkouts
                >= pre.spec_metas()[i].checkouts,
        forall|i: int|
            0 <= i < pre.spec_metas().len() && (#[trigger] post.spec_metas()[i]).checkouts
                != pre.spec_metas()[i].checkouts ==> i == id && r == Ok::<(), UpdateEntryError>(()),
        r == Ok::<(), UpdateEntryError>(()) ==> post.spec_metas()[id].checkouts == (
        if pre.spec_metas()[id].checkouts + 1 > u64::MAX {
            u64::MAX as int
        } else {
            pre.spec_metas()[id].checkouts + 1
        }),
{
}

/// Guest directory uniqueness: however registrations interleave, no two
/// accepted registrations share an address or a nickname.
pub proof fn lemma_guest_directory_unique(lib: Library)
    requires
        lib.wf(),
    ensures
        forall|i: int, j: int|
            0 <= i < j < lib.guest_pairs().len() ==> (#[trigger] lib.guest_pairs()[i]).0 != (
            #[trigger] lib.guest_pairs()[j]).0,
        forall|i: int, j: int|
            0 <= i < j < lib.guest_pairs().len() ==> (#[trigger] lib.guest_pairs()[i]).1 != (
            #[trigger] lib.guest_pairs()[j]).1,
{
}

proof fn lemma_filter_all_true(lib: Library, q: Seq<char>, n: int)
    requires
        0 <= n <= lib.spec_books().len(),
        forall|i: int| 0 <= i < n ==> book_qualifies(q, #[trigger] lib.spec_books()[i]),
    ensures
        qualifying_ids_upto(lib, q, n) =~= Seq::new(n as nat, |i: int| i),
    decreases n,
{
    reveal(Seq::filter);
    if n == 0 {
        assert(Seq::new(0, |i: int| i) =~= Seq::<int>::empty());
    } else {
        lemma_filter_all_true(lib, q, n - 1);
        let base = Seq::new(n as nat, |i: int| i);
        assert(base.drop_last() =~= Seq::new((n - 1) as nat, |i: int| i));
        assert(base.last() == n - 1);
        assert(qualifying_ids_upto(lib, q, n) =~= qualifying_ids_upto(lib, q, n - 1).push(n - 1));
    }
}

proof fn lemma_asc_lower(ids: Seq<int>, k: int)
    requires
        forall|k1: int, k2: int| 0 <= k1 < k2 < ids.len() ==> #[trigger] ids[k1] < #[trigger] ids[k2],
        forall|j: int| 0 <= j < ids.len() ==> #[trigger] ids[j] >= 0,
        0 <= k < ids.len(),
    ensures
        ids[k] >= k,
    decreases k,
{
    if k > 0 {
        lemma_asc_lower(ids, k - 1);
    }
}

proof fn lemma_asc_upper(ids: Seq<int>, n: int, k: int)
    requires
        forall|k1: int, k2: int| 0 <= k1 < k2 < ids.len() ==> #[trigger] ids[k1] < #[trigger] ids[k2],
        forall|j: int| 0 <= j < ids.len() ==> #[trigger] ids[j] < n,
        ids.len() == n,
        0 <= k < n,
    ensures
        ids[k] <= k,
    decreases n - k,
{
    if k < n - 1 {
        lemma_asc_upper(ids, n, k + 1);
    }
}

/// Search scoring on the empty query: every book is listed, in pool order,
/// each with a score of exactly one.
pub proof fn lemma_search_empty_query(lib: Library, out: Seq<(Score, BookID, Metadata)>)
    requires
        lib.wf(),
        search_post(lib, Seq::empty(), out),
    ensures
        out.len() == lib.spec_books().len(),
        forall|k: int| 0 <= k < out.len() ==> (#[trigger] out[k]).1.idx() == k,
        forall|k: int| 0 <= k < out.len() ==> (#[trigger] out[k]).0 == (Score { num: 1, den: 1 }),
{
    broadcast use vstd::seq_lib::group_to_multiset_ensures;

    let q = Seq::<char>::empty();
    let n = lib.spec_books().len() as int;
    assert forall|i: int| 0 <= i < n implies book_qualifies(q, #[trigger] lib.spec_books()[i]) by {
        assert(book_score(q, lib.spec_books()[i]) == (Score { num: 1, den: 1 }));
    }
    lemma_filter_all_true(lib, q, n);
    assert(qualifying_ids(lib, q) =~= Seq::new(n as nat, |i: int| i));
    let ids = out.map_values(|e: (Score, BookID, Metadata)| e.1.idx());
    assert(ids.to_multiset().len() == ids.len());
    assert(qualifying_ids(lib, q).to_multiset().len() == n);
    assert(out.len() == n);
    assert forall|k: int| 0 <= k < out.len() implies (#[trigger] out[k]).0 == (Score {
        num: 1,
        den: 1,
    }) by {
        assert(out[k].0 == book_score(q, lib.spec_books()[out[k].1.idx()]));
    }
    assert forall|k1: int, k2: int| 0 <= k1 < k2 < ids.len() implies #[trigger] ids[k1]
        < #[trigger] ids[k2] by {
        assert(entry_before(out[k1], out[k2]));
        assert(!score_lt(out[k2].0, out[k1].0));
    }
    assert forall|k: int| 0 <= k < out.len() implies (#[trigger] out[k]).1.idx() == k by {
        assert(ids[k] == out[k].1.idx());
        lemma_asc_lower(ids, k);
        lemma_asc_upper(ids, n, k);
    }
}

} // verus!
